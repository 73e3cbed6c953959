use git_sleipnir::clone_logic::{
    any_common, heads_prefix, local_dir_name, max_natural, min_natural, next_depth,
    reachable_tag_indices, tag_short_name, tagged_commits, tags_prefix,
};
use git_sleipnir::protocol::RefInfo;
use git_sleipnir::repo::LocalRepo;

fn rref(sha: &str, refname: &str, peeled: Option<&str>) -> RefInfo {
    RefInfo {
        sha: sha.to_string(),
        refname: refname.to_string(),
        peeled: peeled.map(|p| p.to_string()),
    }
}

#[test]
fn max_tag_by_natural_order() {
    let tags = vec!["v2".to_string(), "v10".to_string()];
    assert_eq!(max_natural(&tags), Some("v10".to_string()));
    assert_eq!(min_natural(&tags), Some("v2".to_string()));
    assert_eq!(max_natural(&Vec::new()), None);
}

#[test]
fn deepening_stops_when_a_tagged_commit_appears() {
    let tagged = vec!["ccc".to_string(), "ddd".to_string()];
    let revs_depth_1 = vec!["aaa".to_string(), "bbb".to_string()];
    assert!(!any_common(&revs_depth_1, &tagged));
    let depth = next_depth(1);
    assert_eq!(depth, 51);
    let revs_depth_51 = vec!["aaa".to_string(), "bbb".to_string(), "ccc".to_string()];
    assert!(any_common(&revs_depth_51, &tagged));
    let reachable = vec!["v2".to_string(), "v10".to_string()];
    assert_eq!(max_natural(&reachable), Some("v10".to_string()));
}

#[test]
fn local_dir_name_strips_git_suffix() {
    assert_eq!(local_dir_name("/group/project.git"), "project");
    assert_eq!(local_dir_name("/group/project"), "project");
    assert_eq!(local_dir_name("/a/b/c.git"), "c");
}

#[test]
fn wanted_ref_prefixes() {
    assert_eq!(heads_prefix(&None), "refs/heads/");
    assert_eq!(heads_prefix(&Some("rel".to_string())), "refs/heads/rel");
    assert_eq!(tags_prefix(&None), "refs/tags/");
    assert_eq!(tags_prefix(&Some("v".to_string())), "refs/tags/v");
}

#[test]
fn tagged_commits_are_the_peeled_shas() {
    let refs = vec![
        rref("s1", "refs/heads/main", None),
        rref("s2", "refs/tags/v1", Some("c1")),
        rref("s3", "refs/tags/v2", Some("c2")),
    ];
    assert_eq!(
        tagged_commits(&refs),
        vec!["c1".to_string(), "c2".to_string()]
    );
}

#[test]
fn reachable_tags_need_prefix_and_fetched_peel() {
    let refs = vec![
        rref("s1", "refs/heads/main", None),
        rref("s2", "refs/tags/v1", Some("c1")),
        rref("s3", "refs/tags/v2", Some("c9")),
        rref("s4", "refs/notes/x", Some("c1")),
    ];
    let commits = vec!["c1".to_string(), "c5".to_string()];
    let idx = reachable_tag_indices(&refs, &commits);
    assert_eq!(idx, vec![1]);
    assert_eq!(
        tag_short_name(&refs[1].refname),
        Some("v1".to_string())
    );
    assert_eq!(tag_short_name(&refs[0].refname), None);
}

#[test]
fn repo_command_arguments() {
    let repo = LocalRepo::new("proj".to_string());
    assert_eq!(repo.init_args(), vec!["init", "proj"]);
    assert_eq!(
        repo.update_ref_args(&"refs/heads/main".to_string(), &"abc".to_string()),
        vec!["-C", "proj", "update-ref", "refs/heads/main", "abc"]
    );
    assert_eq!(
        repo.update_head_args(&"refs/heads/main".to_string()),
        vec!["-C", "proj", "symbolic-ref", "HEAD", "refs/heads/main"]
    );
    assert_eq!(
        repo.checkout_head_args(),
        vec!["-C", "proj", "checkout", "HEAD"]
    );
    assert_eq!(
        repo.rev_list_args(&"abc".to_string()),
        vec!["-C", "proj", "rev-list", "abc"]
    );
    assert_eq!(
        repo.index_pack_args(),
        vec!["-C", "proj", "index-pack", "--stdin", "-v"]
    );
    assert_eq!(repo.shallow_file_path(), "proj/.git/shallow");
    assert_eq!(repo.shallow_tmp_path(), "proj/.git/shallow.tmp");
}
