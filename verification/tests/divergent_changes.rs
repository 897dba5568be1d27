use std::collections::HashMap;
use std::sync::Mutex;

use converge::changes::choose_change;
use converge::changes::find_divergent_changes;
use converge::changes::CommitsByChangeId;
use converge::commit::Commit;
use converge::commit::Signature;
use converge::commit::Timestamp;
use converge::error::ConvergeError;
use converge::ids::ChangeId;
use converge::ids::CommitId;
use converge::ui::ConvergeUI;

struct MockConvergeUI {
    pub chosen_change: Option<ChangeId>,

    // Tracking for assertions
    pub choose_change_called: Mutex<bool>,
    pub choose_author_called: Mutex<bool>,
}

impl MockConvergeUI {
    fn new() -> Self {
        Self {
            chosen_change: None,
            choose_change_called: Mutex::new(false),
            choose_author_called: Mutex::new(false),
        }
    }
}

impl ConvergeUI for MockConvergeUI {
    fn choose_change<'a>(
        &self,
        divergent_changes: &'a CommitsByChangeId,
    ) -> Result<Option<&'a ChangeId>, ConvergeError> {
        *self.choose_change_called.lock().unwrap() = true;
        let Some(ref change_id) = self.chosen_change else {
            return Ok(None);
        };
        match divergent_changes
            .keys()
            .into_iter()
            .find(|k| *k == change_id)
        {
            Some(change_id) => Ok(Some(change_id)),
            None => Err(ConvergeError::Other(format!(
                "MockConvergeUI error: {change_id:?} not in divergent changes"
            ))),
        }
    }

    fn choose_author(
        &self,
        _divergent_commits: &[Commit],
        _evolution_fork_point: &Commit,
    ) -> Result<Option<Signature>, ConvergeError> {
        *self.choose_author_called.lock().unwrap() = true;
        Ok(None)
    }

    fn choose_parents(
        &self,
        _divergent_commits: &[Commit],
    ) -> Result<Option<Vec<CommitId>>, ConvergeError> {
        Ok(None)
    }

    fn merge_description(
        &self,
        _divergent_commits: &[Commit],
        _evolution_fork_point: &Commit,
    ) -> Result<Option<String>, ConvergeError> {
        Ok(None)
    }
}

fn make_change_id(byte: u8) -> ChangeId {
    ChangeId::new(vec![byte; 16])
}

fn create_commit(id: u8, author: &Signature, desc: &str, change_id: &ChangeId) -> Commit {
    Commit {
        id: CommitId::new(vec![id; 20]),
        change_id: change_id.clone(),
        author: author.clone(),
        description: desc.to_string(),
    }
}

fn author1() -> Signature {
    Signature {
        name: "author1".to_string(),
        email: "author1".to_string(),
        timestamp: Timestamp {
            millis_since_epoch: 1_700_000_000_000,
            tz_offset: 60,
        },
    }
}

fn root_commit() -> Commit {
    create_commit(0, &author1(), "", &make_change_id(0))
}

/// The changes as maps.
fn maps(changes: &CommitsByChangeId) -> HashMap<ChangeId, HashMap<CommitId, Commit>> {
    changes
        .keys()
        .into_iter()
        .map(|change_id| {
            let commits = changes.get(change_id).unwrap();
            (
                change_id.clone(),
                commits
                    .iter()
                    .map(|commit| (commit.id.clone(), commit.clone()))
                    .collect(),
            )
        })
        .collect()
}

#[test]
fn test_find_divergent_changes_none_found() -> Result<(), ConvergeError> {
    let author = author1();
    let commit_1 = create_commit(1, &author, "commit 1", &make_change_id(0x11));
    let commit_2 = create_commit(2, &author, "commit 2", &make_change_id(0x22));

    let result = find_divergent_changes(vec![commit_2, commit_1, root_commit()]);
    assert!(result.is_empty());
    Ok(())
}

#[test]
fn test_find_divergent_changes_exactly_one_found() -> Result<(), ConvergeError> {
    let change_aa = make_change_id(0xAA);
    let author = author1();
    let commit_1 = create_commit(1, &author, "foo", &change_aa);
    let commit_2 = create_commit(2, &author, "bar", &change_aa);

    let result = find_divergent_changes(vec![commit_2.clone(), commit_1.clone(), root_commit()]);
    let expected = HashMap::from([(
        change_aa.clone(),
        HashMap::from([
            (commit_1.id.clone(), commit_1.clone()),
            (commit_2.id.clone(), commit_2.clone()),
        ]),
    )]);
    assert_eq!(maps(&result.clone()), expected);

    // Since there is a single divergent change, choose_change() works without a
    // ConvergeUI.
    let chosen_change = choose_change(None::<&MockConvergeUI>, &result)?;
    assert_eq!(chosen_change, Some(&change_aa));

    // It also works with a ConvergeUI, and the UI is not called since there is only
    // one option.
    let converge_ui = MockConvergeUI::new();
    let chosen_change = choose_change(Some(&converge_ui), &result)?;
    assert_eq!(chosen_change, Some(&change_aa));
    assert!(!*converge_ui.choose_author_called.lock().unwrap());
    assert!(!*converge_ui.choose_change_called.lock().unwrap());

    Ok(())
}

#[test]
fn test_find_divergent_changes_two_found() -> Result<(), ConvergeError> {
    let change_aa = make_change_id(0xAA);
    let change_bb = make_change_id(0xBB);
    let author = author1();
    let commit_1 = create_commit(1, &author, "foo", &change_aa);
    let commit_2 = create_commit(2, &author, "bar", &change_aa);
    let commit_3 = create_commit(3, &author, "baz", &change_bb);
    let commit_4 = create_commit(4, &author, "qux", &change_bb);

    let result = find_divergent_changes(vec![
        commit_4.clone(),
        commit_3.clone(),
        commit_2.clone(),
        commit_1.clone(),
        root_commit(),
    ]);
    let expected = HashMap::from([
        (
            change_aa.clone(),
            HashMap::from([
                (commit_1.id.clone(), commit_1.clone()),
                (commit_2.id.clone(), commit_2.clone()),
            ]),
        ),
        (
            change_bb,
            HashMap::from([
                (commit_3.id.clone(), commit_3.clone()),
                (commit_4.id.clone(), commit_4.clone()),
            ]),
        ),
    ]);
    assert_eq!(maps(&result), expected);

    // Since there are multiple divergent change, choose_change() requires a
    // ConvergeUI.
    let chosen_change = choose_change(None::<&MockConvergeUI>, &result)?;
    assert_eq!(chosen_change, None);

    // It does work with a ConvergeUI.
    let mut converge_ui = MockConvergeUI::new();
    converge_ui.chosen_change = Some(change_aa.clone());
    let chosen_change = choose_change(Some(&converge_ui), &result)?;
    assert_eq!(chosen_change, Some(&change_aa));
    let ui_called = *converge_ui.choose_change_called.lock().unwrap();
    assert!(ui_called);

    // Simulate the case where the user aborts the UI by not choosing a change.
    let converge_ui = MockConvergeUI::new();
    let chosen_change = choose_change(Some(&converge_ui), &result)?;
    assert_eq!(chosen_change, None);
    let ui_called = *converge_ui.choose_change_called.lock().unwrap();
    assert!(ui_called);

    Ok(())
}

#[test]
fn choosing_from_no_changes_asks_nobody() {
    let result = find_divergent_changes(vec![]);
    assert!(result.is_empty());
    assert_eq!(result.len(), 0);
    assert!(result.keys().is_empty());
    let converge_ui = MockConvergeUI::new();
    assert_eq!(choose_change(Some(&converge_ui), &result), Ok(None));
    assert!(!*converge_ui.choose_change_called.lock().unwrap());
}

#[test]
fn an_error_of_the_user_interface_is_handed_on() {
    let author = author1();
    let (a, b) = (make_change_id(0xAA), make_change_id(0xBB));
    let result = find_divergent_changes(vec![
        create_commit(1, &author, "", &a),
        create_commit(2, &author, "", &a),
        create_commit(3, &author, "", &b),
        create_commit(4, &author, "", &b),
    ]);
    assert_eq!(result.len(), 2);
    let mut converge_ui = MockConvergeUI::new();
    converge_ui.chosen_change = Some(make_change_id(0xCC));
    let dynamic: &dyn ConvergeUI = &converge_ui;
    assert!(matches!(
        choose_change(Some(dynamic), &result),
        Err(ConvergeError::Other(_))
    ));
    assert_eq!(result.get(&make_change_id(0xCC)), None);
}

#[test]
fn a_commit_that_is_listed_twice_is_not_divergent() {
    let author = author1();
    let change = make_change_id(0xAA);
    let first = create_commit(1, &author, "first", &change);
    let again = create_commit(1, &author, "again", &change);
    let other = create_commit(2, &author, "other", &change);
    assert!(find_divergent_changes(vec![first.clone(), again.clone()]).is_empty());

    // Of commits with the same identifier the last one counts.
    let result = find_divergent_changes(vec![first, other.clone(), again.clone()]);
    let commits = &maps(&result)[&change];
    assert_eq!(commits.len(), 2);
    assert_eq!(commits[&again.id], again);
    assert_eq!(commits[&other.id], other);
}

#[test]
fn changes_are_compared_by_their_commits() {
    let author = author1();
    let (a, b) = (make_change_id(0xAA), make_change_id(0xBB));
    let one = create_commit(1, &author, "one", &a);
    let two = create_commit(2, &author, "two", &a);
    let three = create_commit(3, &author, "three", &b);
    let four = create_commit(4, &author, "four", &b);
    let result = find_divergent_changes(vec![
        one.clone(),
        two.clone(),
        three.clone(),
        four.clone(),
    ]);
    assert_eq!(result.clone(), result);
    assert_eq!(result.clone().keys(), result.keys());
    // The order does not matter.
    let turned = vec![four.clone(), two.clone(), three, one.clone()];
    assert_eq!(find_divergent_changes(turned), result);
    // The changes and the contents of the commits do.
    assert!(find_divergent_changes(vec![one.clone(), two.clone()]) != result);
    let other_two = create_commit(2, &author, "other", &a);
    assert!(
        find_divergent_changes(vec![one.clone(), other_two])
            != find_divergent_changes(vec![one.clone(), two.clone()])
    );
    let more = create_commit(5, &author, "more", &a);
    assert!(
        find_divergent_changes(vec![one.clone(), two.clone(), more])
            != find_divergent_changes(vec![one, two])
    );
}
