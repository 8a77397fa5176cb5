use breadcrumbs::matcher::BreadcrumbsMatcher;
use breadcrumbs::matcher::MatchPattern;

enum Event<'a> {
    Enter(&'a str),
    Leave(&'a str),
}

fn run_stim(pattern: Vec<MatchPattern>, stim: Vec<(bool, Event)>) {
    let mut bc = BreadcrumbsMatcher::new(pattern);
    for (matches, event) in stim {
        match event {
            Event::Enter(e) => {
                bc.enter(e);
            }
            Event::Leave(e) => {
                bc.leave(e);
            }
        }
        assert!(
            bc.matches() == matches,
            "Incorrectly computed matched/mismatch"
        );
    }
}

fn base_pattern() -> Vec<MatchPattern> {
    vec![
        MatchPattern::Matches("Base".to_string()),
        MatchPattern::NotMatches("DisallowedLevel".to_string()),
        MatchPattern::Matches("Something".to_string()),
    ]
}

#[test]
fn matcher_test_notmatch_without_next() {
    let stim: Vec<(bool, Event)> = vec![
        (false, Event::Enter("Prebase")),
        (false, Event::Enter("Base")),
        (false, Event::Enter("NextLevel")),
        (false, Event::Enter("DisallowedLevel")),
        (false, Event::Enter("NotMatched")),
        (false, Event::Leave("NotMatched")),
        (false, Event::Leave("DisallowedLevel")),
        (false, Event::Leave("Base")),
        (false, Event::Leave("Prebase")),
    ];
    run_stim(base_pattern(), stim);
}

#[test]
fn matcher_notmatch_multiple() {
    let stim: Vec<(bool, Event)> = vec![
        (false, Event::Enter("Base")),
        (false, Event::Enter("DisallowedLevel")),
        (false, Event::Enter("Something")),
        (false, Event::Leave("Something")),
        (false, Event::Leave("DisallowedLevel")),
        (false, Event::Leave("Base")),
        (false, Event::Enter("Base")),
        (true, Event::Enter("Something")),
        (false, Event::Leave("Something")),
        (false, Event::Leave("Base")),
    ];
    run_stim(base_pattern(), stim);
}

#[test]
fn matcher_notmatch_after() {
    let stim: Vec<(bool, Event)> = vec![
        (false, Event::Enter("Base")),
        (true, Event::Enter("Something")),
        (true, Event::Enter("DisallowedLevel")),
        (true, Event::Leave("DisallowedLevel")),
        (false, Event::Leave("Something")),
        (false, Event::Leave("Base")),
    ];
    run_stim(base_pattern(), stim);
}

#[test]
fn matcher_respects_not_equal_match_reentry() {
    let stim: Vec<(bool, Event)> = vec![
        (false, Event::Enter("Base")),
        (false, Event::Enter("NextLevel")),
        (false, Event::Enter("AllowedLevel")),
        (true, Event::Enter("Something")),
        (false, Event::Leave("Something")),
        (true, Event::Enter("Something")),
        (false, Event::Leave("Something")),
        (false, Event::Enter("DisallowedLevel")),
        (false, Event::Enter("Something")),
        (false, Event::Leave("Something")),
        (false, Event::Leave("DisallowedLevel")),
        (false, Event::Leave("AllowedLevel")),
        (false, Event::Leave("NextLevel")),
        (false, Event::Leave("Base")),
        //Now we redo the above
        (false, Event::Enter("Base")),
        (false, Event::Enter("NextLevel")),
        (false, Event::Enter("AllowedLevel")),
        (true, Event::Enter("Something")),
        (false, Event::Leave("Something")),
        (true, Event::Enter("Something")),
        (false, Event::Leave("Something")),
        (false, Event::Enter("DisallowedLevel")),
        (false, Event::Enter("Something")),
        (false, Event::Leave("Something")),
        (false, Event::Leave("DisallowedLevel")),
        (false, Event::Leave("AllowedLevel")),
        (false, Event::Leave("NextLevel")),
        (false, Event::Leave("Base")),
    ];
    run_stim(base_pattern(), stim);
}

#[test]
fn matcher_test_ignores_nomatch() {
    let stim: Vec<(bool, Event)> = vec![
        (false, Event::Enter("Base")),
        (true, Event::Enter("Something")),
        (false, Event::Leave("Something")),
        (false, Event::Leave("Base")),
    ];
    run_stim(base_pattern(), stim);
}

#[test]
fn matcher_respects_not_equal_match() {
    let stim: Vec<(bool, Event)> = vec![
        (false, Event::Enter("Base")),
        (false, Event::Enter("NextLevel")),
        (false, Event::Enter("AllowedLevel")),
        (true, Event::Enter("Something")),
        (false, Event::Leave("Something")),
        (false, Event::Leave("AllowedLevel")),
    ];
    run_stim(base_pattern(), stim);
}

#[test]
fn matcher_respects_not_equal_notmatch() {
    let stim: Vec<(bool, Event)> = vec![
        (false, Event::Enter("Base")),
        (false, Event::Enter("NextLevel")),
        (false, Event::Enter("DisallowedLevel")),
        (false, Event::Enter("Something")),
        (false, Event::Leave("Something")),
        (false, Event::Leave("DisallowedLevel")),
    ];
    run_stim(base_pattern(), stim);
}

// A pattern with no excluded terms matches exactly when the open path
// holds its required labels in order.
#[test]
fn matcher_all_required_subsequence() {
    let pattern = vec![
        MatchPattern::Matches("A".to_string()),
        MatchPattern::Matches("B".to_string()),
    ];
    let mut bc = BreadcrumbsMatcher::new(pattern);
    assert!(!bc.matches());
    bc.enter("A");
    assert!(!bc.matches());
    bc.enter("X");
    assert!(!bc.matches());
    bc.enter("B");
    assert!(bc.matches());
    bc.leave("B");
    assert!(!bc.matches());
}

// Exclusion trigger and release: inside the excluded node no match is
// reported, and after it is left the same entry matches again.
#[test]
fn matcher_exclusion_trigger_and_release() {
    let pattern = vec![
        MatchPattern::Matches("A".to_string()),
        MatchPattern::NotMatches("B".to_string()),
        MatchPattern::Matches("C".to_string()),
    ];
    let mut bc = BreadcrumbsMatcher::new(pattern);
    bc.enter("A");
    bc.enter("B");
    assert!(!bc.enter("C"));
    assert!(!bc.matches());
    bc.leave("C");
    bc.leave("B");
    assert!(bc.enter("C"));
    assert!(bc.matches());
}

// Leaving the inner of two nested same-named excluded nodes must not
// clear the outer trigger.
#[test]
fn matcher_nested_same_exclusion() {
    let pattern = vec![
        MatchPattern::Matches("A".to_string()),
        MatchPattern::NotMatches("B".to_string()),
        MatchPattern::Matches("C".to_string()),
    ];
    let mut bc = BreadcrumbsMatcher::new(pattern);
    bc.enter("A");
    bc.enter("B");
    bc.enter("B");
    bc.leave("B");
    assert!(!bc.enter("C"));
    assert!(!bc.matches());
    bc.leave("C");
    bc.leave("B");
    assert!(bc.enter("C"));
}

// An enter followed by its leave restores the observable state, from
// any prior state.
#[test]
fn matcher_enter_leave_restores() {
    let pattern = vec![
        MatchPattern::Matches("A".to_string()),
        MatchPattern::NotMatches("B".to_string()),
        MatchPattern::Matches("C".to_string()),
    ];
    let mut bc = BreadcrumbsMatcher::new(pattern);
    bc.enter("A");
    bc.enter("B");
    let before = bc.matches();
    bc.enter("C");
    bc.leave("C");
    assert_eq!(bc.matches(), before);
    bc.enter("Q");
    bc.leave("Q");
    assert_eq!(bc.matches(), before);
}
