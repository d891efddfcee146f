//! The state of file includes while parsing: the includes resolved so far, the values of
//! the files already parsed, and the files being parsed.

use crate::parse::util::str_equals;
use crate::valid::wf_value;
use crate::value::Value;
use vstd::prelude::*;

verus! {

/// A file that an include names: its path as the parser opens it, its canonical path, and
/// its contents.
#[derive(Debug)]
pub struct IncludeTarget {
    pub path: String,
    pub canonical: String,
    pub contents: String,
}

/// An include written as `path` in the file `base` (none for text that came from no file),
/// with the file it names, or none when the path does not name a readable file.
#[derive(Debug)]
pub struct IncludeFile {
    pub base: Option<String>,
    pub path: String,
    pub target: Option<IncludeTarget>,
}

/// Two optional file names name the same file, or both name none.
pub open spec fn same_base(a: Option<String>, b: Option<String>) -> bool {
    match a {
        Some(x) => match b {
            Some(y) => x@ == y@,
            None => false,
        },
        None => b is None,
    }
}

/// The record is that of the include written as `path` in `base`.
pub open spec fn entry_matches(f: IncludeFile, base: Option<String>, path: Seq<char>) -> bool {
    same_base(f.base, base) && f.path@ == path
}

/// The state of includes during a parse.
#[derive(Debug)]
pub struct Included {
    /// The includes resolved so far.
    pub files: Vec<IncludeFile>,
    /// The values of the files parsed so far, by canonical path.
    pub values: Vec<(String, Value)>,
    /// The canonical paths of the files whose includes are being processed.
    pub active: Vec<String>,
    /// The canonical path of the file being parsed, if it is a file.
    pub current: Option<String>,
}

/// The characters of each string.
pub open spec fn string_views(v: Seq<String>) -> Seq<Seq<char>> {
    Seq::new(v.len(), |i: int| v[i]@)
}

/// The canonical paths of the files that the resolved includes name.
pub open spec fn target_canons(files: Seq<IncludeFile>) -> Seq<Seq<char>>
    decreases files.len(),
{
    if files.len() == 0 {
        Seq::empty()
    } else {
        let rest = target_canons(files.drop_last());
        match files.last().target {
            Some(t) => rest.push(t.canonical@),
            None => rest,
        }
    }
}

/// The canonical path of every resolved include is among the targets.
pub proof fn lemma_target_canons(files: Seq<IncludeFile>, i: int)
    requires
        0 <= i < files.len(),
        files[i].target is Some,
    ensures
        target_canons(files).contains(files[i].target->0.canonical@),
    decreases files.len(),
{
    if i < files.len() - 1 {
        lemma_target_canons(files.drop_last(), i);
        let rest = target_canons(files.drop_last());
        let k = choose|k: int| 0 <= k < rest.len() && rest[k] == files[i].target->0.canonical@;
        match files.last().target {
            Some(t) => assert(rest.push(t.canonical@)[k] == rest[k]),
            None => {},
        }
    } else {
        let rest = target_canons(files.drop_last());
        assert(rest.push(files[i].target->0.canonical@)[rest.len() as int] == files[i].target->0.canonical@);
    }
}

impl Included {
    /// No include resolved, no value remembered, no file being parsed.
    pub fn new() -> (r: Included)
        ensures
            r.files@.len() == 0,
            r.values@.len() == 0,
            r.active@.len() == 0,
            r.current is None,
    {
        Included { files: Vec::new(), values: Vec::new(), active: Vec::new(), current: None }
    }

    /// The remembered values are well-formed and remembered once each, and none is remembered
    /// for the file being parsed or for one whose includes are being processed.
    pub open spec fn values_wf(&self) -> bool {
        &&& forall|i: int| 0 <= i < self.values@.len() ==> wf_value((#[trigger] self.values@[i]).1@)
        &&& forall|i: int, j: int| 0 <= i < j < self.values@.len() ==> (#[trigger] self.values@[i]).0@ != (
        #[trigger] self.values@[j]).0@
        &&& forall|i: int| 0 <= i < self.values@.len() ==> !self.active_set().contains((#[trigger] self.values@[i]).0@)
        &&& forall|i: int| 0 <= i < self.values@.len() ==> !(self.current matches Some(c) && c@ == (
        #[trigger] self.values@[i]).0@)
    }

    /// The canonical paths that includes can lead to.
    pub open spec fn targets(&self) -> Set<Seq<char>> {
        target_canons(self.files@).to_set()
    }

    /// The canonical paths of the files whose includes are being processed.
    pub open spec fn active_set(&self) -> Set<Seq<char>> {
        string_views(self.active@).to_set()
    }

    /// How many files that includes lead to are not being processed.
    pub open spec fn fresh(&self) -> nat {
        self.targets().difference(self.active_set()).len()
    }

    /// Zero while parsing a file that includes lead to, one otherwise.
    pub open spec fn outside(&self) -> nat {
        match self.current {
            Some(c) => if self.targets().contains(c@) {
                0
            } else {
                1
            },
            None => 1,
        }
    }

    /// The file being parsed is not among those whose includes are being processed.
    pub open spec fn current_inactive(&self) -> bool {
        match self.current {
            Some(c) => !self.active_set().contains(c@),
            None => true,
        }
    }

    /// Same resolved includes, same files being processed, same current file.
    pub open spec fn same_frame(&self, other: &Included) -> bool {
        &&& other.files == self.files
        &&& other.active_set() == self.active_set()
        &&& other.current == self.current
    }

    /// Returns true if `c` is among the files whose includes are being processed.
    pub fn is_active(&self, c: &str) -> (r: bool)
        ensures
            r == self.active_set().contains(c@),
    {
        let n = self.active.len();
        let mut i: usize = 0;
        while i < n
            invariant
                n == self.active@.len(),
                i <= n,
                forall|j: int| 0 <= j < i ==> self.active@[j]@ != c@,
            decreases n - i,
        {
            if str_equals(self.active[i].as_str(), c) {
                proof {
                    let s = string_views(self.active@);
                    assert(s[i as int] == c@);
                }
                return true;
            }
            i = i + 1;
        }
        proof {
            let s = string_views(self.active@);
            assert(!s.contains(c@)) by {
                if s.contains(c@) {
                    let k = choose|k: int| 0 <= k < s.len() && s[k] == c@;
                    assert(self.active@[k]@ == c@);
                }
            }
        }
        false
    }

    /// Marks `c` as being processed.
    pub fn activate(&mut self, c: &String)
        ensures
            final(self).active_set() == old(self).active_set().insert(c@),
            final(self).files == old(self).files,
            final(self).current == old(self).current,
            final(self).values == old(self).values,
    {
        if !self.is_active(c.as_str()) {
            let ghost before = string_views(self.active@);
            self.active.push(c.clone());
            proof {
                let after = string_views(self.active@);
                assert(after =~= before.push(c@));
                assert(after.to_set() =~= before.to_set().insert(c@)) by {
                    assert forall|x: Seq<char>| after.contains(x) <==> before.to_set().insert(c@).contains(x) by {
                        if after.contains(x) {
                            let k = choose|k: int| 0 <= k < after.len() && after[k] == x;
                            if k < before.len() {
                                assert(before[k] == x);
                            }
                        }
                        if before.contains(x) {
                            let k = choose|k: int| 0 <= k < before.len() && before[k] == x;
                            assert(after[k] == x);
                        }
                        if x == c@ {
                            assert(after[before.len() as int] == x);
                        }
                    }
                }
            }
        } else {
            proof {
                assert(self.active_set().insert(c@) =~= self.active_set());
            }
        }
    }

    /// Marks `c` as no longer being processed.
    pub fn deactivate(&mut self, c: &String)
        ensures
            final(self).active_set() == old(self).active_set().remove(c@),
            final(self).files == old(self).files,
            final(self).current == old(self).current,
            final(self).values == old(self).values,
    {
        let ghost before = string_views(self.active@);
        let mut kept: Vec<String> = Vec::new();
        let n = self.active.len();
        let mut i: usize = 0;
        while i < n
            invariant
                n == self.active@.len(),
                before == string_views(self.active@),
                i <= n,
                forall|x: Seq<char>|
                    string_views(kept@).contains(x) <==> (x != c@
                        && before.subrange(0, i as int).contains(x)),
            decreases n - i,
        {
            let ghost kv = string_views(kept@);
            if !str_equals(self.active[i].as_str(), c.as_str()) {
                kept.push(self.active[i].clone());
            }
            proof {
                let kv2 = string_views(kept@);
                let pre1 = before.subrange(0, i as int);
                let pre2 = before.subrange(0, i + 1);
                assert forall|x: Seq<char>| kv2.contains(x) <==> (x != c@ && pre2.contains(x)) by {
                    if kv2.contains(x) {
                        let k = choose|k: int| 0 <= k < kv2.len() && kv2[k] == x;
                        if k < kv.len() {
                            assert(kv[k] == x);
                            assert(kv.contains(x));
                            assert(pre1.contains(x));
                            let m = choose|m: int| 0 <= m < pre1.len() && pre1[m] == x;
                            assert(pre2[m] == x);
                        } else {
                            assert(pre2[i as int] == x);
                        }
                    }
                    if x != c@ && pre2.contains(x) {
                        let m = choose|m: int| 0 <= m < pre2.len() && pre2[m] == x;
                        if m < i {
                            assert(pre1[m] == x);
                            assert(pre1.contains(x));
                            assert(kv.contains(x));
                            let k = choose|k: int| 0 <= k < kv.len() && kv[k] == x;
                            assert(kv2[k] == x);
                        } else {
                            assert(kv2[kv.len() as int] == x);
                        }
                    }
                }
            }
            i = i + 1;
        }
        self.active = kept;
        proof {
            assert(before.subrange(0, n as int) =~= before);
            assert(self.active_set() =~= before.to_set().remove(c@));
        }
    }

    /// The index of the first record of the include written as `path` in `base`, if it was
    /// resolved.
    pub fn find_file(&self, base: &Option<String>, path: &str) -> (r: Option<usize>)
        ensures
            r matches Some(i) ==> i < self.files@.len() && entry_matches(self.files@[i as int], *base, path@),
            r matches Some(i) ==> forall|j: int| 0 <= j < i ==> !entry_matches(#[trigger] self.files@[j], *base, path@),
            r is None ==> forall|j: int| 0 <= j < self.files@.len() ==> !entry_matches(#[trigger] self.files@[j], *base, path@),
    {
        let n = self.files.len();
        let mut i: usize = 0;
        while i < n
            invariant
                n == self.files@.len(),
                i <= n,
                forall|j: int| 0 <= j < i ==> !entry_matches(#[trigger] self.files@[j], *base, path@),
            decreases n - i,
        {
            let f = &self.files[i];
            let same_base = match (&f.base, base) {
                (Some(a), Some(b)) => str_equals(a.as_str(), b.as_str()),
                (None, None) => true,
                _ => false,
            };
            if same_base && str_equals(f.path.as_str(), path) {
                return Some(i);
            }
            i = i + 1;
        }
        None
    }

    /// The value first remembered for the file with canonical path `c`, if any.
    pub fn cached(&self, c: &str) -> (r: Option<Value>)
        ensures
            r matches Some(v) ==> exists|i: int|
                0 <= i < self.values@.len() && self.values@[i].0@ == c@ && (#[trigger] self.values@[i]).1@
                    == v@ && forall|j: int| 0 <= j < i ==> (#[trigger] self.values@[j]).0@ != c@,
            r is None ==> forall|j: int| 0 <= j < self.values@.len() ==> (#[trigger] self.values@[j]).0@ != c@,
    {
        let n = self.values.len();
        let mut i: usize = 0;
        while i < n
            invariant
                n == self.values@.len(),
                i <= n,
                forall|j: int| 0 <= j < i ==> (#[trigger] self.values@[j]).0@ != c@,
            decreases n - i,
        {
            if str_equals(self.values[i].0.as_str(), c) {
                return Some(self.values[i].1.copy());
            }
            i = i + 1;
        }
        None
    }

    /// Remembers the value of the file with canonical path `c`.
    pub fn remember(&mut self, c: String, v: Value)
        ensures
            final(self).files == old(self).files,
            final(self).active == old(self).active,
            final(self).current == old(self).current,
            final(self).values@ == old(self).values@.push((c, v)),
    {
        self.values.push((c, v));
    }
}

/// Processing the includes of file `c` and then parsing a file `b` that includes lead to and
/// that is not being processed leaves fewer files to visit: strictly fewer when `c` is itself
/// a file includes lead to, and never more.
pub proof fn lemma_fresh_decreases(t: Set<Seq<char>>, a: Set<Seq<char>>, c: Seq<char>)
    requires
        t.finite(),
        !a.contains(c),
    ensures
        t.difference(a.insert(c)).len() <= t.difference(a).len(),
        t.contains(c) ==> t.difference(a.insert(c)).len() < t.difference(a).len(),
{
    vstd::set_lib::lemma_len_subset(t.difference(a), t);
    assert(t.difference(a.insert(c)) =~= t.difference(a).remove(c));
    vstd::set::axiom_set_remove_len(t.difference(a), c);
}

} // verus!
