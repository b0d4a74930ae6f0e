use scarlet::version::{git_dir, git_stamp, head_ref, stamp};

#[test]
fn a_plain_version_is_stamped_with_its_commit() {
    assert_eq!(stamp("1.2.3\n", Some("abc1234")), "1.2.3+git.abc1234");
    assert_eq!(stamp("1.2.3\n", None), "1.2.3");
    assert_eq!(stamp("1.2.3-rc.1\n", Some("abc1234")), "1.2.3-rc.1");
    assert_eq!(stamp("1.2.3+x\n", Some("abc1234")), "1.2.3+x");
}

#[test]
fn a_changed_tree_is_dirty() {
    assert_eq!(git_stamp(Some("abc1234"), Some("")), Some("abc1234".to_string()));
    assert_eq!(git_stamp(Some("abc1234"), Some(" M file")), Some("abc1234.dirty".to_string()));
    assert_eq!(git_stamp(Some(""), Some("")), None);
    assert_eq!(git_stamp(None, Some("")), None);
}

#[test]
fn the_files_git_reads_are_followed() {
    assert_eq!(git_dir("gitdir: /r/.git/worktrees/w\n"), Some("/r/.git/worktrees/w"));
    assert_eq!(git_dir("elsewhere"), None);
    assert_eq!(head_ref("ref: refs/heads/main\n"), Some("refs/heads/main"));
    assert_eq!(head_ref("0123abcd"), None);
}
