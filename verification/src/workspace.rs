//! A multi file project model plus a simple run task.
//!
//! A `Workspace` owns one `Analysis` per file, keyed by name and kept in name
//! order. Editing a file updates its analysis incrementally. Running a file
//! evaluates its program.

use vstd::prelude::*;
use vstd::string::{StringExecFns, StringSliceAdditionalSpecFns};
use vstd::utf8::{encode_utf8, is_char_boundary};
use crate::eval::{self, RunOutput, RuntimeError, run_finishes, spec_run, lines_v, ErrV};
use crate::incremental::{Analysis, batch_groups};
use crate::parse_spec::group_stmts;
use crate::parser::spec_parse_text;
use crate::rename::{RenameError, rename_outcome};
use crate::sort::{bytes_le, bytes_le_exec, lemma_bytes_le_total, lemma_bytes_le_trans};

verus! {

pub struct Workspace {
    files: Vec<(String, Analysis)>,
}

#[derive(Debug, PartialEq, Eq)]
pub enum RunError {
    NoSuchFile,
    Runtime(RuntimeError),
}

/// Names in byte order, strictly.
pub open spec fn name_lt(a: Seq<char>, b: Seq<char>) -> bool {
    bytes_le(encode_utf8(a), encode_utf8(b)) && encode_utf8(a) != encode_utf8(b)
}

/// The index of the first entry named `name`.
pub open spec fn find_name(s: Seq<(String, Analysis)>, name: Seq<char>, i: int) -> Option<int>
    decreases s.len() - i,
{
    if i < 0 || i >= s.len() {
        None
    } else if s[i].0@ == name {
        Some(i)
    } else {
        find_name(s, name, i + 1)
    }
}

proof fn lemma_bytes_le_antisym(a: Seq<u8>, b: Seq<u8>)
    requires
        bytes_le(a, b),
        bytes_le(b, a),
    ensures
        a == b,
    decreases a.len(),
{
    if a.len() > 0 && b.len() > 0 {
        lemma_bytes_le_antisym(a.drop_first(), b.drop_first());
        assert(a =~= seq![a[0]] + a.drop_first());
        assert(b =~= seq![b[0]] + b.drop_first());
    } else if a.len() == 0 && b.len() > 0 {
    } else if a.len() == 0 {
        assert(a =~= b);
    }
}

proof fn lemma_name_lt_trans(a: Seq<char>, b: Seq<char>, c: Seq<char>)
    requires
        name_lt(a, b),
        name_lt(b, c),
    ensures
        name_lt(a, c),
{
    let (x, y, z) = (encode_utf8(a), encode_utf8(b), encode_utf8(c));
    lemma_bytes_le_trans(x, y, z);
    if x == z {
        lemma_bytes_le_antisym(x, y);
    }
}

/// Whether two strings are the same text.
fn same_text(a: &str, b: &str) -> (r: bool)
    ensures
        r == (a@ == b@),
{
    let x = a.as_bytes();
    let y = b.as_bytes();
    proof {
        vstd::utf8::encode_utf8_decode_utf8(a@);
        vstd::utf8::encode_utf8_decode_utf8(b@);
    }
    if x.len() != y.len() {
        return false;
    }
    let mut i: usize = 0;
    while i < x.len()
        invariant
            i <= x@.len() == y@.len(),
            x@ == a.spec_bytes(),
            y@ == b.spec_bytes(),
            forall|j: int| 0 <= j < i ==> x@[j] == y@[j],
        decreases x@.len() - i,
    {
        if x[i] != y[i] {
            return false;
        }
        i = i + 1;
    }
    assert(x@ =~= y@);
    true
}

impl Workspace {
    /// The entries in name order.
    pub closed spec fn entries(&self) -> Seq<(String, Analysis)> {
        self.files@
    }

    /// The names are in strictly increasing byte order.
    pub open spec fn wf(&self) -> bool {
        forall|i: int, j: int|
            0 <= i < j < self.entries().len() ==> name_lt(
                (#[trigger] self.entries()[i]).0@,
                (#[trigger] self.entries()[j]).0@,
            )
    }

    /// The analysis of the file of that name, if there is one.
    pub open spec fn file_spec(&self, name: Seq<char>) -> Option<Analysis> {
        match find_name(self.entries(), name, 0) {
            Some(i) => Some(self.entries()[i].1),
            None => None,
        }
    }

    pub fn new() -> (w: Workspace)
        ensures
            w.wf(),
            w.entries().len() == 0,
    {
        Workspace { files: Vec::new() }
    }

    fn position(&self, name: &str) -> (r: Option<usize>)
        ensures
            match r {
                Some(i) => find_name(self.entries(), name@, 0) == Some(i as int) && i < self.entries().len(),
                None => find_name(self.entries(), name@, 0) is None,
            },
    {
        let mut i: usize = 0;
        while i < self.files.len()
            invariant
                i <= self.files@.len(),
                find_name(self.files@, name@, i as int) == find_name(self.files@, name@, 0),
            decreases self.files@.len() - i,
        {
            if same_text(self.files[i].0.as_str(), name) {
                assert(self.files@[i as int].0@ == name@);
                return Some(i);
            }
            i = i + 1;
        }
        None
    }
}

} // verus!

verus! {

proof fn lemma_find_name_from(s: Seq<(String, Analysis)>, n: Seq<char>, k: int, i: int)
    requires
        0 <= k <= i < s.len(),
        s[i].0@ == n,
        forall|j: int| k <= j < i ==> (#[trigger] s[j]).0@ != n,
    ensures
        find_name(s, n, k) == Some(i),
    decreases i - k,
{
    if k < i {
        lemma_find_name_from(s, n, k + 1, i);
    }
}

proof fn lemma_find_name_absent(s: Seq<(String, Analysis)>, n: Seq<char>, k: int)
    requires
        0 <= k,
        forall|j: int| k <= j < s.len() ==> (#[trigger] s[j]).0@ != n,
    ensures
        find_name(s, n, k) is None,
    decreases s.len() - k,
{
    if k < s.len() {
        lemma_find_name_absent(s, n, k + 1);
    }
}

pub open spec fn names_sorted(s: Seq<(String, Analysis)>) -> bool {
    forall|i: int, j: int| 0 <= i < j < s.len() ==> name_lt((#[trigger] s[i]).0@, (#[trigger] s[j]).0@)
}

/// In a list with sorted (hence distinct) names, the entry for a name is the
/// one that carries it.
proof fn lemma_find_sorted(s: Seq<(String, Analysis)>, n: Seq<char>)
    requires
        names_sorted(s),
    ensures
        forall|i: int| 0 <= i < s.len() && (#[trigger] s[i]).0@ == n ==> find_name(s, n, 0) == Some(i),
        (forall|i: int| 0 <= i < s.len() ==> (#[trigger] s[i]).0@ != n) ==> find_name(s, n, 0) is None,
{
    assert forall|i: int| 0 <= i < s.len() && (#[trigger] s[i]).0@ == n implies find_name(s, n, 0) == Some(i) by {
        assert forall|j: int| 0 <= j < i implies (#[trigger] s[j]).0@ != n by {
            assert(name_lt(s[j].0@, s[i].0@));
        }
        lemma_find_name_from(s, n, 0, i);
    }
    if forall|i: int| 0 <= i < s.len() ==> (#[trigger] s[i]).0@ != n {
        lemma_find_name_absent(s, n, 0);
    }
}

fn name_less(a: &str, b: &str) -> (r: bool)
    ensures
        r == name_lt(a@, b@),
{
    let le = bytes_le_exec(a.as_bytes(), b.as_bytes());
    let same = same_text(a, b);
    proof {
        vstd::utf8::encode_utf8_decode_utf8(a@);
        vstd::utf8::encode_utf8_decode_utf8(b@);
    }
    le && !same
}

impl Workspace {
    /// Add or replace a file, analysing it from scratch.
    pub fn set_file(&mut self, name: &str, text: &str)
        requires
            old(self).wf(),
            text.spec_bytes().len() <= u32::MAX,
        ensures
            final(self).wf(),
            final(self).file_spec(name@) is Some,
            final(self).file_spec(name@).unwrap().spec_text() == text@,
            final(self).file_spec(name@).unwrap().spec_groups() == spec_parse_text(text).0,
            forall|m: Seq<char>| m != name@ ==> #[trigger] final(self).file_spec(m) == old(self).file_spec(m),
    {
        let a = Analysis::new(text);
        let key = String::from_str(name);
        let ghost s0 = self.files@;
        let mut i: usize = 0;
        while i < self.files.len() && name_less(self.files[i].0.as_str(), name)
            invariant
                i <= self.files@.len(),
                self.files@ == s0,
                forall|j: int| 0 <= j < i ==> name_lt((#[trigger] s0[j]).0@, name@),
            decreases self.files@.len() - i,
        {
            i = i + 1;
        }
        let ghost entry = (key, a);
        if i < self.files.len() && same_text(self.files[i].0.as_str(), name) {
            self.files.set(i, (key, a));
            proof {
                let s1 = self.files@;
                assert(s1 == s0.update(i as int, entry));
                assert(names_sorted(s1)) by {
                    assert forall|x: int, y: int| 0 <= x < y < s1.len() implies name_lt(
                        (#[trigger] s1[x]).0@,
                        (#[trigger] s1[y]).0@,
                    ) by {
                        assert(s0[x].0@ == s1[x].0@);
                        assert(s0[y].0@ == s1[y].0@);
                        assert(name_lt(s0[x].0@, s0[y].0@));
                    }
                }
                assert(s1[i as int].0@ == name@);
                lemma_find_sorted(s1, name@);
                assert forall|m: Seq<char>| m != name@ implies #[trigger] self.file_spec(m) == old(self).file_spec(m) by {
                    lemma_find_sorted(s0, m);
                    lemma_find_sorted(s1, m);
                    if exists|x: int| 0 <= x < s0.len() && (#[trigger] s0[x]).0@ == m {
                        let x = choose|x: int| 0 <= x < s0.len() && (#[trigger] s0[x]).0@ == m;
                        assert(s1[x].0@ == m);
                    } else {
                        assert forall|x: int| 0 <= x < s1.len() implies (#[trigger] s1[x]).0@ != m by {
                            if x != i {
                                assert(s1[x] == s0[x]);
                            }
                        }
                    }
                }
            }
        } else {
            proof {
                if i < s0.len() {
                    lemma_bytes_le_total(encode_utf8(s0[i as int].0@), encode_utf8(name@));
                    assert(s0[i as int].0@ != name@);
                    assert(encode_utf8(s0[i as int].0@) != encode_utf8(name@)) by {
                        vstd::utf8::encode_utf8_decode_utf8(s0[i as int].0@);
                        vstd::utf8::encode_utf8_decode_utf8(name@);
                    }
                    assert(name_lt(name@, s0[i as int].0@));
                }
            }
            self.files.insert(i, (key, a));
            proof {
                let s1 = self.files@;
                assert(s1 == s0.insert(i as int, entry));
                assert(names_sorted(s1)) by {
                    assert forall|x: int, y: int| 0 <= x < y < s1.len() implies name_lt(
                        (#[trigger] s1[x]).0@,
                        (#[trigger] s1[y]).0@,
                    ) by {
                        if y < i {
                            assert(name_lt(s0[x].0@, s0[y].0@));
                        } else if y == i {
                            assert(s1[x] == s0[x]);
                        } else if x == i {
                            assert(s1[y] == s0[y - 1]);
                            if y - 1 > i {
                                assert(name_lt(s0[i as int].0@, s0[y - 1].0@));
                                lemma_name_lt_trans(name@, s0[i as int].0@, s0[y - 1].0@);
                            }
                        } else if x < i {
                            assert(s1[x] == s0[x]);
                            assert(s1[y] == s0[y - 1]);
                            assert(name_lt(s0[x].0@, s0[y - 1].0@));
                        } else {
                            assert(s1[x] == s0[x - 1]);
                            assert(s1[y] == s0[y - 1]);
                            assert(name_lt(s0[x - 1].0@, s0[y - 1].0@));
                        }
                    }
                }
                lemma_find_sorted(s1, name@);
                assert(s1[i as int].0@ == name@);
                assert forall|m: Seq<char>| m != name@ implies #[trigger] self.file_spec(m) == old(self).file_spec(m) by {
                    lemma_find_sorted(s0, m);
                    lemma_find_sorted(s1, m);
                    if exists|x: int| 0 <= x < s0.len() && (#[trigger] s0[x]).0@ == m {
                        let x = choose|x: int| 0 <= x < s0.len() && (#[trigger] s0[x]).0@ == m;
                        if x < i {
                            assert(s1[x] == s0[x]);
                        } else {
                            assert(s1[x + 1] == s0[x]);
                        }
                    } else {
                        assert forall|x: int| 0 <= x < s1.len() implies (#[trigger] s1[x]).0@ != m by {
                            if x < i {
                                assert(s1[x] == s0[x]);
                            } else if x > i {
                                assert(s1[x] == s0[x - 1]);
                            }
                        }
                    }
                }
            }
        }
    }
}

} // verus!

verus! {

proof fn lemma_find_name_result(s: Seq<(String, Analysis)>, m: Seq<char>, k: int)
    ensures
        find_name(s, m, k) matches Some(j) ==> k <= j < s.len() && s[j].0@ == m,
    decreases s.len() - k,
{
    if 0 <= k < s.len() {
        lemma_find_name_result(s, m, k + 1);
    }
}

/// Replacing an entry by one with the same name changes no lookup.
proof fn lemma_same_names(s0: Seq<(String, Analysis)>, s1: Seq<(String, Analysis)>, m: Seq<char>, k: int)
    requires
        s0.len() == s1.len(),
        forall|j: int| 0 <= j < s0.len() ==> (#[trigger] s0[j]).0@ == s1[j].0@,
    ensures
        find_name(s0, m, k) == find_name(s1, m, k),
    decreases s0.len() - k,
{
    if 0 <= k < s0.len() {
        lemma_same_names(s0, s1, m, k + 1);
    }
}

impl Default for Workspace {
    fn default() -> (w: Workspace)
        ensures
            w.wf(),
            w.entries().len() == 0,
    {
        Workspace::new()
    }
}

impl Workspace {
    /// Apply an incremental edit to a file. Returns false if the file is unknown.
    pub fn edit_file(&mut self, name: &str, start: u32, end: u32, replacement: &str) -> (r: bool)
        requires
            old(self).wf(),
            match old(self).file_spec(name@) {
                Some(a) => {
                    let b = encode_utf8(a.spec_text());
                    &&& start <= end <= b.len()
                    &&& is_char_boundary(b, start as int)
                    &&& is_char_boundary(b, end as int)
                    &&& b.len() - (end - start) + replacement.spec_bytes().len() <= u32::MAX
                },
                None => true,
            },
        ensures
            final(self).wf(),
            r == old(self).file_spec(name@) is Some,
            match old(self).file_spec(name@) {
                Some(a) => {
                    let b = encode_utf8(a.spec_text());
                    &&& final(self).file_spec(name@) is Some
                    &&& encode_utf8(final(self).file_spec(name@).unwrap().spec_text()) == b.subrange(
                        0,
                        start as int,
                    ) + replacement.spec_bytes() + b.subrange(end as int, b.len() as int)
                    &&& final(self).file_spec(name@).unwrap().spec_groups() == batch_groups(
                        final(self).file_spec(name@).unwrap().spec_text(),
                    )
                },
                None => final(self).entries() == old(self).entries(),
            },
            forall|m: Seq<char>| m != name@ ==> #[trigger] final(self).file_spec(m) == old(self).file_spec(m),
    {
        match self.position(name) {
            None => false,
            Some(i) => {
                let ghost s0 = self.files@;
                let (k, mut a) = self.files.remove(i);
                a.edit(start, end, replacement);
                self.files.insert(i, (k, a));
                proof {
                    let s1 = self.files@;
                    assert(s1 =~= s0.update(i as int, (k, a)));
                    assert forall|m: Seq<char>| #[trigger] find_name(s1, m, 0) == find_name(s0, m, 0) by {
                        lemma_same_names(s0, s1, m, 0);
                    }
                    lemma_find_name_result(s0, name@, 0);
                    assert forall|m: Seq<char>| m != name@ implies #[trigger] self.file_spec(m) == old(self).file_spec(m) by {
                        lemma_find_name_result(s0, m, 0);
                        lemma_same_names(s0, s1, m, 0);
                    }
                }
                true
            },
        }
    }

    /// The analysis of a file, if there is one of that name.
    pub fn file(&self, name: &str) -> (r: Option<&Analysis>)
        ensures
            match self.file_spec(name@) {
                Some(a) => r is Some && *r.unwrap() == a,
                None => r is None,
            },
    {
        match self.position(name) {
            None => None,
            Some(i) => Some(&self.files[i].1),
        }
    }

    /// The file names, in order.
    pub fn file_names(&self) -> (r: Vec<String>)
        ensures
            r@.len() == self.entries().len(),
            forall|i: int| 0 <= i < r@.len() ==> (#[trigger] r@[i])@ == self.entries()[i].0@,
    {
        let mut out: Vec<String> = Vec::new();
        let mut i: usize = 0;
        while i < self.files.len()
            invariant
                i <= self.files@.len(),
                out@.len() == i,
                forall|j: int| 0 <= j < i ==> (#[trigger] out@[j])@ == self.files@[j].0@,
            decreases self.files@.len() - i,
        {
            out.push(self.files[i].0.clone());
            i = i + 1;
        }
        out
    }

    /// Rename the symbol at `pos` in `name` to `new_name`, rewriting the file's
    /// declaration and every reference. Returns the number of edits applied. The
    /// rename is refused (and the file left untouched) if it is unsafe or the new
    /// name is invalid. A file not found reports `RenameError::NotRenameable`.
    pub fn rename_symbol(&mut self, name: &str, pos: u32, new_name: &str) -> (r: Result<usize, RenameError>)
        requires
            old(self).wf(),
            new_name.spec_bytes().len() <= u32::MAX,
        ensures
            final(self).wf(),
            match old(self).file_spec(name@) {
                None => r == Err::<usize, RenameError>(RenameError::NotRenameable) && final(self).entries()
                    == old(self).entries(),
                Some(a) => match rename_outcome(encode_utf8(a.spec_text()), a.spec_symbols(), pos, new_name) {
                    Err(e) => r == Err::<usize, RenameError>(e) && final(self).entries() == old(self).entries(),
                    Ok((spans, nt)) => {
                        &&& r == Ok::<usize, RenameError>(spans.len() as usize)
                        &&& final(self).file_spec(name@) is Some
                        &&& encode_utf8(final(self).file_spec(name@).unwrap().spec_text()) == nt
                        &&& final(self).file_spec(name@).unwrap().spec_groups() == crate::parse_spec::spec_parse_items(
                            crate::lexer::lex_from(nt, 0, 0),
                        ).0
                    },
                },
            },
            forall|m: Seq<char>| m != name@ ==> #[trigger] final(self).file_spec(m) == old(self).file_spec(m),
    {
        match self.position(name) {
            None => Err(RenameError::NotRenameable),
            Some(i) => {
                let renamed = self.files[i].1.rename(pos, new_name);
                match renamed {
                    Err(e) => Err(e),
                    Ok(rn) => {
                        let count = rn.edits.len();
                        proof {
                            assert(crate::rename::edit_spans(rn.edits@).len() == rn.edits@.len());
                        }
                        let fresh = Analysis::new(rn.new_text.as_str());
                        let ghost s0 = self.files@;
                        let k = self.files[i].0.clone();
                        self.files.set(i, (k, fresh));
                        proof {
                            let s1 = self.files@;
                            assert forall|m: Seq<char>| #[trigger] find_name(s1, m, 0) == find_name(s0, m, 0) by {
                                lemma_same_names(s0, s1, m, 0);
                            }
                            lemma_find_name_result(s0, name@, 0);
                            assert forall|m: Seq<char>| m != name@ implies #[trigger] self.file_spec(m) == old(self).file_spec(m) by {
                                lemma_find_name_result(s0, m, 0);
                                lemma_same_names(s0, s1, m, 0);
                            }
                        }
                        Ok(count)
                    },
                }
            },
        }
    }

    /// Evaluate a file's program (the Run task).
    pub fn run_file(&self, name: &str) -> (r: Result<RunOutput, RunError>)
        requires
            match self.file_spec(name@) {
                Some(a) => run_finishes(group_stmts(a.spec_groups())),
                None => true,
            },
        ensures
            match self.file_spec(name@) {
                None => r == Err::<RunOutput, RunError>(RunError::NoSuchFile),
                Some(a) => match r {
                    Ok(out) => spec_run(group_stmts(a.spec_groups())) == Ok::<Seq<Seq<char>>, ErrV>(
                        lines_v(out.lines@),
                    ),
                    Err(RunError::Runtime(e)) => spec_run(group_stmts(a.spec_groups())) == Err::<
                        Seq<Seq<char>>,
                        ErrV,
                    >(e@),
                    Err(RunError::NoSuchFile) => false,
                },
            },
    {
        match self.position(name) {
            None => Err(RunError::NoSuchFile),
            Some(i) => {
                let a = &self.files[i].1;
                match eval::run(a.program()) {
                    Ok(out) => Ok(out),
                    Err(e) => Err(RunError::Runtime(e)),
                }
            },
        }
    }
}

} // verus!
