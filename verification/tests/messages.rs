use emptydir::can_be_deleted::{usize_to_decimal, Reason};

fn names(list: &[&str]) -> Vec<String> {
    list.iter().map(|s| String::from(*s)).collect()
}

#[test]
fn decimal_rendering_matches_the_usual_notation() {
    assert_eq!(usize_to_decimal(0), String::from("0"));
    assert_eq!(usize_to_decimal(9), String::from("9"));
    assert_eq!(usize_to_decimal(10), String::from("10"));
    assert_eq!(usize_to_decimal(307), String::from("307"));
    assert_eq!(usize_to_decimal(1234567890), String::from("1234567890"));
}

#[test]
fn a_single_blocking_entry_is_reported_in_the_singular() {
    let reason = Reason::NotEmpty(names(&["greeting.txt"]));
    assert_eq!(
        reason.describe(),
        String::from("directory is not empty; contains 1 entry:\n  - greeting.txt")
    );
}

#[test]
fn several_blocking_entries_are_reported_one_per_line() {
    let reason = Reason::NotEmpty(names(&["alpha.txt", "beta.txt", "gamma.txt"]));
    assert_eq!(
        reason.describe(),
        String::from(
            "directory is not empty; contains 3 entries:\n  - alpha.txt\n  - beta.txt\n  - gamma.txt"
        )
    );
}

#[test]
fn a_listing_fault_is_reported_with_its_text() {
    let reason = Reason::CannotListContents(String::from("permission denied"));
    assert_eq!(
        reason.describe(),
        String::from("unable to list directory contents: permission denied")
    );
}

#[test]
fn the_git_veto_has_a_fixed_report() {
    assert_eq!(
        Reason::InGitRepository.describe(),
        String::from("directory is inside a .git repository")
    );
}

#[test]
fn the_sentinel_veto_has_a_fixed_report() {
    assert_eq!(
        Reason::ProtectedPath.describe(),
        String::from("directory is the designated never-delete folder")
    );
}
