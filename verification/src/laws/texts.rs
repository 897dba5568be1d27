//! How values are shown and written down.
use vstd::prelude::*;

use crate::commit::Commit;
use crate::commit::CommitEvolutionEntry;
use crate::commit::Signature;
use crate::error;
use crate::error::ConvergeError;
use crate::ids;
use crate::node;
use crate::solution::MergedTree;

verus! {

/// Every value is shown in its place.
pub proof fn lemma_shown<T: View>(items: Seq<T>)
    ensures
        node::shown(items).len() == items.len(),
        forall|i: int| 0 <= i < items.len() ==> (#[trigger] node::shown(items)[i]) == items[i]@,
{
}

/// Signatures stand for the same just if the names, the addresses and the times are the same.
pub proof fn lemma_signatures(a: Signature, b: Signature)
    ensures
        a@ == b@ <==> a.name@ == b.name@ && a.email@ == b.email@ && a.timestamp == b.timestamp,
{
}

/// Commits stand for the same just if all that is known of them is the same.
pub proof fn lemma_commits(a: Commit, b: Commit)
    ensures
        a@.id == a.id@,
        a@.change_id == a.change_id@,
        a@.author == a.author@,
        a@.description == a.description@,
        a@ == b@ <==> a.id@ == b.id@ && a.change_id@ == b.change_id@ && a.author@ == b.author@
            && a.description@ == b.description@,
{
}

/// Entries stand for the same just if their commits and all predecessors in order do.
pub proof fn lemma_entries(a: CommitEvolutionEntry, b: CommitEvolutionEntry)
    ensures
        a@.commit == a.commit@,
        a@ == b@ <==> {
            &&& a.commit@ == b.commit@
            &&& a.predecessors@.len() == b.predecessors@.len()
            &&& forall|i: int|
                0 <= i < a.predecessors@.len() ==> (#[trigger] a.predecessors@[i])@
                    == b.predecessors@[i]@
        },
{
    if a@ == b@ {
        assert(a@.predecessors.len() == a.predecessors@.len());
        assert(b@.predecessors.len() == b.predecessors@.len());
        assert forall|i: int| 0 <= i < a.predecessors@.len() implies (
        #[trigger] a.predecessors@[i])@ == b.predecessors@[i]@ by {
            assert(a@.predecessors[i] == b@.predecessors[i]);
        }
    }
    if a.commit@ == b.commit@ && a.predecessors@.len() == b.predecessors@.len() && forall|i: int|
        0 <= i < a.predecessors@.len() ==> (#[trigger] a.predecessors@[i])@
            == b.predecessors@[i]@ {
        assert(a@.predecessors =~= b@.predecessors);
    }
}

/// Trees stand for the same just if their identifiers and their labels are the same.
pub proof fn lemma_trees(a: MergedTree, b: MergedTree)
    ensures
        a@ == b@ <==> a.tree_ids@ == b.tree_ids@ && a.labels.labels@ == b.labels.labels@,
{
}

/// The sixteen hexadecimal digits.
pub proof fn lemma_hex_digit(digit: int)
    requires
        0 <= digit < 16,
    ensures
        ids::hex_digit(digit) == "0123456789abcdef"@[digit],
{
    reveal_strlit("0123456789abcdef");
}

/// What number a hexadecimal digit stands for.
pub open spec fn digit_value(digit: char) -> int {
    if '0' <= digit <= '9' {
        digit as int - '0' as int
    } else {
        digit as int - 'a' as int + 10
    }
}

/// The hexadecimal form has two digits for each byte, and they give back the byte.
pub proof fn lemma_hex_reads_back(bytes: Seq<u8>)
    ensures
        ids::hex_digits(bytes).len() == 2 * bytes.len(),
        forall|i: int|
            0 <= i < bytes.len() ==> 16 * digit_value(ids::hex_digits(bytes)[2 * i])
                + digit_value(ids::hex_digits(bytes)[2 * i + 1]) == #[trigger] bytes[i],
        forall|k: int|
            0 <= k < 2 * bytes.len() ==> "0123456789abcdef"@.contains(
                #[trigger] ids::hex_digits(bytes)[k],
            ),
{
    let hex = ids::hex_digits(bytes);
    reveal_strlit("0123456789abcdef");
    assert("0123456789abcdef"@.len() == 16);
    assert forall|i: int| 0 <= i < bytes.len() implies 16 * digit_value(hex[2 * i])
        + digit_value(hex[2 * i + 1]) == #[trigger] bytes[i] by {
        let byte = bytes[i] as int;
        assert((2 * i) / 2 == i && (2 * i + 1) / 2 == i);
        assert(hex[2 * i] == ids::hex_digit(byte / 16));
        assert(hex[2 * i + 1] == ids::hex_digit(byte % 16));
        assert(byte == 16 * (byte / 16) + byte % 16);
        assert(0 <= byte / 16 < 16);
        lemma_digit_value(byte / 16);
        lemma_digit_value(byte % 16);
    }
    assert forall|k: int| 0 <= k < 2 * bytes.len() implies "0123456789abcdef"@.contains(
        #[trigger] hex[k],
    ) by {
        let byte = bytes[k / 2] as int;
        let digit = if k % 2 == 0 {
            byte / 16
        } else {
            byte % 16
        };
        assert(0 <= digit < 16);
        lemma_hex_digit(digit);
        assert(hex[k] == ids::hex_digit(digit));
        assert("0123456789abcdef"@[digit] == hex[k]);
    }
}

/// A digit gives back its value.
proof fn lemma_digit_value(digit: int)
    requires
        0 <= digit < 16,
    ensures
        digit_value(ids::hex_digit(digit)) == digit,
{
}

/// Different bytes have different hexadecimal forms.
pub proof fn lemma_hex_is_unique(a: Seq<u8>, b: Seq<u8>)
    requires
        ids::hex_digits(a) == ids::hex_digits(b),
    ensures
        a == b,
{
    lemma_hex_reads_back(a);
    lemma_hex_reads_back(b);
    assert forall|i: int| 0 <= i < a.len() implies a[i] == b[i] by {}
    assert(a =~= b);
}

/// The number that some digits stand for.
pub open spec fn decimal_value(digits: Seq<char>) -> int
    decreases digits.len(),
{
    if digits.len() == 0 {
        0
    } else {
        10 * decimal_value(digits.drop_last()) + digit_value(digits.last())
    }
}

/// The decimal form consists of decimal digits, gives back the number, and has no needless zeros
/// in front.
pub proof fn lemma_decimal_reads_back(number: nat)
    ensures
        decimal_value(error::decimal(number)) == number,
        forall|i: int|
            0 <= i < error::decimal(number).len() ==> '0' <= #[trigger] error::decimal(number)[i]
                <= '9',
        error::decimal(number).len() > 0,
        number > 0 ==> error::decimal(number)[0] != '0',
        number == 0 ==> error::decimal(number).len() == 1,
    decreases number,
{
    let text = error::decimal(number);
    if number < 10 {
        lemma_digit_value(number as int);
        assert(text.drop_last() =~= Seq::<char>::empty());
        assert(text.last() == ids::hex_digit(number as int));
        assert(decimal_value(text.drop_last()) == 0);
    } else {
        let rest = (number / 10) as nat;
        lemma_decimal_reads_back(rest);
        lemma_digit_value((number % 10) as int);
        assert(text == error::decimal(rest).push(ids::hex_digit((number % 10) as int)));
        assert(text.drop_last() =~= error::decimal(rest));
        assert(text.last() == ids::hex_digit((number % 10) as int));
        assert(number == 10 * rest + number % 10);
        assert(text[0] == error::decimal(rest)[0]);
        assert forall|i: int| 0 <= i < text.len() implies '0' <= #[trigger] text[i] <= '9' by {
            if i < text.len() - 1 {
                assert(text[i] == error::decimal(rest)[i]);
            }
        }
    }
}

/// An unexpected error carries its message, and nothing else does.
pub proof fn lemma_unexpected_error<T>(result: Result<T, ConvergeError>, message: Seq<char>)
    ensures
        error::is_other(result, message) <==> match result {
            Err(ConvergeError::Other(text)) => text@ == message,
            _ => false,
        },
{
}

} // verus!
