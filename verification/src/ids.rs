//! Identifiers of commits, changes and trees.
use vstd::prelude::*;
use vstd::string::StringExecFns;

use crate::node::Node;

verus! {

/// The character of a hexadecimal digit.
pub open spec fn hex_digit(digit: int) -> char {
    if digit < 10 {
        ('0' as int + digit) as char
    } else {
        ('a' as int + digit - 10) as char
    }
}

/// Two hexadecimal digits for each byte.
pub open spec fn hex_digits(bytes: Seq<u8>) -> Seq<char> {
    Seq::new(
        2 * bytes.len(),
        |i: int|
            if i % 2 == 0 {
                hex_digit(bytes[i / 2] as int / 16)
            } else {
                hex_digit(bytes[i / 2] as int % 16)
            },
    )
}

/// A hexadecimal digit as a string.
pub(crate) fn digit_str(digit: u8) -> (text: &'static str)
    requires
        digit < 16,
    ensures
        text@ == seq![hex_digit(digit as int)],
{
    proof {
        reveal_strlit("0");
        reveal_strlit("1");
        reveal_strlit("2");
        reveal_strlit("3");
        reveal_strlit("4");
        reveal_strlit("5");
        reveal_strlit("6");
        reveal_strlit("7");
        reveal_strlit("8");
        reveal_strlit("9");
        reveal_strlit("a");
        reveal_strlit("b");
        reveal_strlit("c");
        reveal_strlit("d");
        reveal_strlit("e");
        reveal_strlit("f");
    }
    let text = match digit {
        0 => "0",
        1 => "1",
        2 => "2",
        3 => "3",
        4 => "4",
        5 => "5",
        6 => "6",
        7 => "7",
        8 => "8",
        9 => "9",
        10 => "a",
        11 => "b",
        12 => "c",
        13 => "d",
        14 => "e",
        _ => "f",
    };
    assert(text@ =~= seq![hex_digit(digit as int)]);
    text
}

/// The hexadecimal form of some bytes.
fn to_hex(bytes: &Vec<u8>) -> (hex: String)
    ensures
        hex@ == hex_digits(bytes@),
{
    let mut hex = String::new();
    let mut i: usize = 0;
    while i < bytes.len()
        invariant
            i <= bytes@.len(),
            hex@ == hex_digits(bytes@.take(i as int)),
        decreases bytes@.len() - i,
    {
        let byte: u8 = bytes[i];
        hex.append(digit_str(byte / 16));
        hex.append(digit_str(byte % 16));
        assert(hex@ =~= hex_digits(bytes@.take(i + 1)));
        i = i + 1;
    }
    assert(bytes@.take(i as int) =~= bytes@);
    hex
}

/// Compares two byte strings.
fn same_bytes(a: &Vec<u8>, b: &Vec<u8>) -> (same: bool)
    ensures
        same == (a@ == b@),
{
    if a.len() != b.len() {
        return false;
    }
    let mut i: usize = 0;
    while i < a.len()
        invariant
            i <= a@.len(),
            a@.len() == b@.len(),
            forall|j: int| 0 <= j < i ==> a@[j] == b@[j],
        decreases a@.len() - i,
    {
        if a[i] != b[i] {
            return false;
        }
        i = i + 1;
    }
    assert(a@ =~= b@);
    true
}

/// Copies a byte string.
fn copy_bytes(bytes: &Vec<u8>) -> (copy: Vec<u8>)
    ensures
        copy@ == bytes@,
{
    let copy = bytes.clone();
    assert(copy@ =~= bytes@);
    copy
}

/// Identifies a commit.
#[derive(Clone, PartialEq, Eq, Hash, Debug)]
pub struct CommitId {
    bytes: Vec<u8>,
}

impl View for CommitId {
    type V = Seq<u8>;

    closed spec fn view(&self) -> Seq<u8> {
        self.bytes@
    }
}

impl CommitId {
    /// The identifier made of the given bytes.
    pub fn new(bytes: Vec<u8>) -> (id: Self)
        ensures
            id@ == bytes@,
    {
        CommitId { bytes }
    }

    /// The bytes of the identifier.
    pub fn as_bytes(&self) -> (bytes: &Vec<u8>)
        ensures
            bytes@ == self@,
    {
        &self.bytes
    }

    /// The hexadecimal form of the identifier.
    pub fn hex(&self) -> (hex: String)
        ensures
            hex@ == hex_digits(self@),
    {
        to_hex(&self.bytes)
    }
}

impl Node for CommitId {
    fn same(&self, other: &Self) -> (same: bool) {
        same_bytes(&self.bytes, &other.bytes)
    }

    fn duplicate(&self) -> (copy: Self) {
        CommitId { bytes: copy_bytes(&self.bytes) }
    }
}

/// Identifies a change: the commits that it evolved through have the same one.
#[derive(Clone, PartialEq, Eq, Hash, Debug)]
pub struct ChangeId {
    bytes: Vec<u8>,
}

impl View for ChangeId {
    type V = Seq<u8>;

    closed spec fn view(&self) -> Seq<u8> {
        self.bytes@
    }
}

impl ChangeId {
    /// The identifier made of the given bytes.
    pub fn new(bytes: Vec<u8>) -> (id: Self)
        ensures
            id@ == bytes@,
    {
        ChangeId { bytes }
    }

    /// The bytes of the identifier.
    pub fn as_bytes(&self) -> (bytes: &Vec<u8>)
        ensures
            bytes@ == self@,
    {
        &self.bytes
    }
}

impl Node for ChangeId {
    fn same(&self, other: &Self) -> (same: bool) {
        same_bytes(&self.bytes, &other.bytes)
    }

    fn duplicate(&self) -> (copy: Self) {
        ChangeId { bytes: copy_bytes(&self.bytes) }
    }
}

/// Identifies a tree.
#[derive(Clone, PartialEq, Eq, Hash, Debug)]
pub struct TreeId {
    bytes: Vec<u8>,
}

impl View for TreeId {
    type V = Seq<u8>;

    closed spec fn view(&self) -> Seq<u8> {
        self.bytes@
    }
}

impl TreeId {
    /// The identifier made of the given bytes.
    pub fn new(bytes: Vec<u8>) -> (id: Self)
        ensures
            id@ == bytes@,
    {
        TreeId { bytes }
    }

    /// The bytes of the identifier.
    pub fn as_bytes(&self) -> (bytes: &Vec<u8>)
        ensures
            bytes@ == self@,
    {
        &self.bytes
    }
}

impl Node for TreeId {
    fn same(&self, other: &Self) -> (same: bool) {
        same_bytes(&self.bytes, &other.bytes)
    }

    fn duplicate(&self) -> (copy: Self) {
        TreeId { bytes: copy_bytes(&self.bytes) }
    }
}

} // verus!
