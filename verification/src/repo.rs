//! The repository-host adapter's decisions: the exact argument list of each
//! git invocation, and where the shallow file and its temporary sibling
//! live.  The caller spawns the processes and performs the file operations.
use vstd::prelude::*;

use crate::fallback::names_view;

verus! {

/// A local repository at a directory path.
pub struct LocalRepo {
    path: String,
}

impl View for LocalRepo {
    type V = Seq<char>;

    closed spec fn view(&self) -> Seq<char> {
        self.path@
    }
}

impl LocalRepo {
    /// A repository rooted at `path`.
    pub fn new(path: String) -> (r: LocalRepo)
        ensures
            r@ == path@,
    {
        LocalRepo { path }
    }

    /// The arguments that create the repository: `git init <path>`.
    pub fn init_args(&self) -> (r: Vec<String>)
        ensures
            names_view(r@) =~= seq!["init"@, self@],
    {
        let mut v: Vec<String> = Vec::new();
        v.push(String::from_str("init"));
        v.push(self.path.clone());
        v
    }

    fn base_args(&self) -> (r: Vec<String>)
        ensures
            r@.len() == 2,
            (r@[0])@ == "-C"@,
            (r@[1])@ == self@,
    {
        let mut v: Vec<String> = Vec::new();
        v.push(String::from_str("-C"));
        v.push(self.path.clone());
        v
    }

    /// The arguments that point `refname` at `sha`.
    pub fn update_ref_args(&self, refname: &String, sha: &String) -> (r: Vec<String>)
        ensures
            names_view(r@) =~= seq!["-C"@, self@, "update-ref"@, refname@, sha@],
    {
        let mut v = self.base_args();
        v.push(String::from_str("update-ref"));
        v.push(refname.clone());
        v.push(sha.clone());
        v
    }

    /// The arguments that set `HEAD` to the symbolic `refname`.
    pub fn update_head_args(&self, refname: &String) -> (r: Vec<String>)
        ensures
            names_view(r@) =~= seq!["-C"@, self@, "symbolic-ref"@, "HEAD"@, refname@],
    {
        let mut v = self.base_args();
        v.push(String::from_str("symbolic-ref"));
        v.push(String::from_str("HEAD"));
        v.push(refname.clone());
        v
    }

    /// The arguments that materialize the working tree from `HEAD`.
    pub fn checkout_head_args(&self) -> (r: Vec<String>)
        ensures
            names_view(r@) =~= seq!["-C"@, self@, "checkout"@, "HEAD"@],
    {
        let mut v = self.base_args();
        v.push(String::from_str("checkout"));
        v.push(String::from_str("HEAD"));
        v
    }

    /// The arguments that list the commits reachable from `sha`.
    pub fn rev_list_args(&self, sha: &String) -> (r: Vec<String>)
        ensures
            names_view(r@) =~= seq!["-C"@, self@, "rev-list"@, sha@],
    {
        let mut v = self.base_args();
        v.push(String::from_str("rev-list"));
        v.push(sha.clone());
        v
    }

    /// The arguments that index a pack arriving on stdin.
    pub fn index_pack_args(&self) -> (r: Vec<String>)
        ensures
            names_view(r@) =~= seq!["-C"@, self@, "index-pack"@, "--stdin"@, "-v"@],
    {
        let mut v = self.base_args();
        v.push(String::from_str("index-pack"));
        v.push(String::from_str("--stdin"));
        v.push(String::from_str("-v"));
        v
    }

    /// Where the shallow file lives.
    pub fn shallow_file_path(&self) -> (r: String)
        ensures
            r@ == self@ + "/.git/shallow"@,
    {
        let mut p = self.path.clone();
        p.append("/.git/shallow");
        p
    }

    /// The sibling path the new shallow contents are written to before the
    /// rename.
    pub fn shallow_tmp_path(&self) -> (r: String)
        ensures
            r@ == self@ + "/.git/shallow.tmp"@,
    {
        let mut p = self.path.clone();
        p.append("/.git/shallow.tmp");
        p
    }
}

} // verus!
