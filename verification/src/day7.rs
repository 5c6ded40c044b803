use crate::text::{all_digits, chars_of, chars_to_string, dec_nat, digits_val, find_char, find_pos};
use crate::text::{lemma_deep_view_chars, lemma_find_pos, line_seqs, parse_u64, split_lines};
use crate::text::{has_prefix, subvec, trim, trim_ws, usize_string};
use vstd::prelude::*;

verus! {

/// A file: its name and its size.
pub struct File {
    pub name: String,
    pub size: usize,
}

/// One directory: its path (components from the root) and the plain files
/// listed in it.
pub struct Entry {
    pub path: Vec<String>,
    pub files: Vec<File>,
}

/// The directory table, in insertion order, with distinct paths.
pub struct FileSystem(pub Vec<Entry>);

/// The abstract directory table: paths as component sequences, files as
/// name/size pairs.
pub type EntriesV = Seq<(Seq<Seq<char>>, Seq<(Seq<char>, usize)>)>;

impl Entry {
    pub open spec fn key(self) -> Seq<Seq<char>> {
        self.path.deep_view()
    }

    pub open spec fn fview(self) -> Seq<(Seq<char>, usize)> {
        self.files@.map_values(|f: File| (f.name@, f.size))
    }
}

impl FileSystem {
    pub open spec fn entries(self) -> EntriesV {
        self.0@.map_values(|e: Entry| (e.key(), e.fview()))
    }
}

/// Index of the entry with path `p`, or the table's length if there is none.
pub open spec fn find_key(es: EntriesV, p: Seq<Seq<char>>) -> nat
    decreases es.len(),
{
    if es.len() == 0 {
        0
    } else if es[0].0 == p {
        0
    } else {
        1 + find_key(es.drop_first(), p)
    }
}

pub proof fn lemma_find_key(es: EntriesV, p: Seq<Seq<char>>)
    ensures
        find_key(es, p) <= es.len(),
        find_key(es, p) < es.len() ==> es[find_key(es, p) as int].0 == p,
        forall|k: int| 0 <= k < find_key(es, p) ==> es[k].0 != p,
    decreases es.len(),
{
    if es.len() > 0 && es[0].0 != p {
        lemma_find_key(es.drop_first(), p);
        assert forall|k: int| 0 <= k < find_key(es, p) implies es[k].0 != p by {
            if k > 0 {
                assert(es.drop_first()[k - 1].0 != p);
            }
        }
    }
}

/// The table after directory `p` is recorded: its file list is reset when
/// the path is already present, else a fresh entry is appended.
pub open spec fn insert_dir(es: EntriesV, p: Seq<Seq<char>>) -> EntriesV {
    let idx = find_key(es, p);
    if idx < es.len() {
        es.update(idx as int, (p, Seq::empty()))
    } else {
        es.push((p, Seq::empty()))
    }
}

/// The table with file `f` appended under path `p` (which must be present).
pub open spec fn add_file(es: EntriesV, p: Seq<Seq<char>>, f: (Seq<char>, usize)) -> EntriesV {
    let idx = find_key(es, p) as int;
    es.update(idx, (es[idx].0, es[idx].1.push(f)))
}

pub open spec fn cd_pat() -> Seq<char> {
    seq!['$', ' ', 'c', 'd']
}

pub open spec fn ls_pat() -> Seq<char> {
    seq!['$', ' ', 'l', 's']
}

pub open spec fn dir_pat() -> Seq<char> {
    seq!['d', 'i', 'r', ' ']
}

/// One line of terminal output applied to the walk state: a `cd` moves the
/// current directory, an `ls` changes nothing, a `dir` line records a
/// directory, and a size/name line records a file under the current
/// directory. `None` when a file line is malformed or its directory was
/// never recorded.
pub open spec fn build_step(cur: Seq<Seq<char>>, es: EntriesV, l: Seq<char>) -> Option<
    (Seq<Seq<char>>, EntriesV),
> {
    if cd_pat().is_prefix_of(l) {
        let arg = trim_ws(l.skip(4));
        if arg == seq!['/'] {
            Some((Seq::empty(), es))
        } else if arg == seq!['.', '.'] {
            if cur.len() > 0 {
                Some((cur.drop_last(), es))
            } else {
                Some((cur, es))
            }
        } else {
            Some((cur.push(arg), es))
        }
    } else if ls_pat().is_prefix_of(l) {
        Some((cur, es))
    } else if dir_pat().is_prefix_of(l) {
        let name = trim_ws(l.skip(4));
        Some((cur, insert_dir(es, cur.push(name))))
    } else if l.len() > 0 {
        let p = find_pos(l, ' ');
        if p >= l.len() {
            None
        } else {
            let sz = l.take(p as int);
            let nm = trim_ws(l.skip(p as int));
            if sz.len() > 0 && all_digits(sz) && digits_val(sz) <= usize::MAX && find_key(es, cur)
                < es.len() {
                Some((cur, add_file(es, cur, (nm, digits_val(sz) as usize))))
            } else {
                None
            }
        }
    } else {
        Some((cur, es))
    }
}

/// The walk state after the lines from index `i` on.
pub open spec fn build_from(ls: Seq<Seq<char>>, i: int, cur: Seq<Seq<char>>, es: EntriesV) -> Option<
    (Seq<Seq<char>>, EntriesV),
>
    decreases ls.len() - i,
{
    if i < 0 || i >= ls.len() {
        Some((cur, es))
    } else {
        match build_step(cur, es, ls[i]) {
            Some(st) => build_from(ls, i + 1, st.0, st.1),
            None => None,
        }
    }
}

/// The directory table read from `s`, starting from the table `es0` with the
/// root recorded.
pub open spec fn day7_built(s: Seq<char>, es0: EntriesV) -> Option<EntriesV> {
    match build_from(line_seqs(s), 0, Seq::empty(), insert_dir(es0, Seq::empty())) {
        Some(st) => Some(st.1),
        None => None,
    }
}

proof fn lemma_deep_view_strings(v: &Vec<String>)
    ensures
        v.deep_view().len() == v@.len(),
        forall|i: int| 0 <= i < v@.len() ==> #[trigger] v.deep_view()[i] == v@[i]@,
{
}

/// Whether the two paths have the same components.
fn path_eq(a: &Vec<String>, b: &Vec<String>) -> (r: bool)
    ensures
        r == (a.deep_view() == b.deep_view()),
{
    proof {
        lemma_deep_view_strings(a);
        lemma_deep_view_strings(b);
    }
    if a.len() != b.len() {
        proof {
            assert(a.deep_view().len() != b.deep_view().len());
        }
        return false;
    }
    let mut k: usize = 0;
    while k < a.len()
        invariant
            k <= a@.len(),
            a@.len() == b@.len(),
            a.deep_view().len() == a@.len(),
            b.deep_view().len() == b@.len(),
            forall|i: int| 0 <= i < a@.len() ==> #[trigger] a.deep_view()[i] == a@[i]@,
            forall|i: int| 0 <= i < b@.len() ==> #[trigger] b.deep_view()[i] == b@[i]@,
            forall|m: int| 0 <= m < k ==> a@[m]@ == b@[m]@,
        decreases a.len() - k,
    {
        let av: &String = &a[k];
        let bv: &String = &b[k];
        if !av.eq(bv) {
            proof {
                assert(a.deep_view()[k as int] != b.deep_view()[k as int]);
            }
            return false;
        }
        k = k + 1;
    }
    proof {
        assert(a.deep_view() =~= b.deep_view());
    }
    true
}

impl FileSystem {
    /// Find the entry holding exactly the path `p`.
    fn find_entry(&self, p: &Vec<String>) -> (r: usize)
        ensures
            r == find_key(self.entries(), p.deep_view()),
    {
        let ghost es = self.entries();
        let ghost pv = p.deep_view();
        proof {
            lemma_find_key(es, pv);
        }
        let mut j: usize = 0;
        while j < self.0.len()
            invariant
                j <= self.0@.len(),
                es == self.entries(),
                pv == p.deep_view(),
                es.len() == self.0@.len(),
                forall|i: int| 0 <= i < es.len() ==> #[trigger] es[i].0 == self.0@[i].key(),
                forall|m: int| 0 <= m < j ==> #[trigger] es[m].0 != pv,
                find_key(es, pv) >= j,
            decreases self.0.len() - j,
        {
            if path_eq(&self.0[j].path, p) {
                proof {
                    assert(es[j as int].0 == pv);
                    lemma_find_key(es, pv);
                }
                return j;
            }
            j = j + 1;
            proof {
                lemma_find_key(es, pv);
                if find_key(es, pv) < j {
                    assert(es[find_key(es, pv) as int].0 == pv);
                }
            }
        }
        proof {
            lemma_find_key(es, pv);
        }
        j
    }
}

/// A copy of a path.
fn clone_path(v: &Vec<String>) -> (r: Vec<String>)
    ensures
        r.deep_view() == v.deep_view(),
{
    proof {
        lemma_deep_view_strings(v);
    }
    let mut r: Vec<String> = Vec::new();
    let mut k: usize = 0;
    while k < v.len()
        invariant
            k <= v@.len(),
            v.deep_view().len() == v@.len(),
            forall|i: int| 0 <= i < v@.len() ==> #[trigger] v.deep_view()[i] == v@[i]@,
            r@.len() == k,
            r.deep_view() == v.deep_view().take(k as int),
        decreases v.len() - k,
    {
        let ghost pre = r.deep_view();
        let ghost old_items = r@;
        let sref: &String = &v[k];
        let copy_chars = chars_of(sref.as_str());
        let copied = chars_to_string(&copy_chars);
        proof {
            assert(copied@ == v@[k as int]@);
        }
        r.push(copied);
        proof {
            assert(r@.len() == k + 1);
            assert forall|i: int| 0 <= i < k + 1 implies #[trigger] r.deep_view()[i]
                == v.deep_view().take(k + 1)[i] by {
                assert(r.deep_view()[i] == r@[i]@);
                if i < k {
                    assert(r@[i] == old_items[i]);
                    assert(pre[i] == old_items[i]@);
                } else {
                    assert(r@[i]@ == v@[i]@);
                }
            }
            assert(r.deep_view() =~~= v.deep_view().take(k + 1));
        }
        k = k + 1;
    }
    proof {
        assert(v.deep_view().take(v@.len() as int) =~= v.deep_view());
    }
    r
}

impl FileSystem {
    /// Record directory `p`: reset its files when present, else append it.
    fn record_dir(&mut self, p: Vec<String>)
        ensures
            final(self).entries() == insert_dir(old(self).entries(), p.deep_view()),
    {
        let ghost es = self.entries();
        let ghost pv = p.deep_view();
        proof {
            lemma_find_key(es, pv);
        }
        let idx = self.find_entry(&p);
        let entry = Entry { path: p, files: Vec::new() };
        if idx < self.0.len() {
            proof {
                assert(es[idx as int].0 == pv);
            }
            let ghost pre = self.0@;
            self.0[idx] = entry;
            proof {
                assert(self.entries() =~~= es.update(idx as int, (pv, Seq::empty())));
            }
        } else {
            self.0.push(entry);
            proof {
                assert(self.entries() =~~= es.push((pv, Seq::empty())));
            }
        }
    }

    /// Append file `f` to the entry at `idx`.
    fn add_file_at(&mut self, idx: usize, f: File)
        requires
            idx < old(self).0@.len(),
        ensures
            final(self).entries() == old(self).entries().update(
                idx as int,
                (
                    old(self).entries()[idx as int].0,
                    old(self).entries()[idx as int].1.push((f.name@, f.size)),
                ),
            ),
    {
        let ghost es = self.entries();
        self.0[idx].files.push(f);
        proof {
            assert(self.entries() =~~= es.update(
                idx as int,
                (es[idx as int].0, es[idx as int].1.push((f.name@, f.size))),
            ));
        }
    }

    /// Walk the terminal output and record every directory and file; `None`
    /// exactly when a listing line is malformed or lists into an unknown
    /// directory.
    pub fn build(self, terminal_output: &str) -> (r: Option<FileSystem>)
        ensures
            r is Some <==> day7_built(terminal_output@, self.entries()) is Some,
            r is Some ==> r->Some_0.entries() == day7_built(
                terminal_output@,
                self.entries(),
            )->Some_0,
    {
        let ghost es0 = self.entries();
        let mut fs = self;
        let mut cur: Vec<String> = Vec::new();
        let root: Vec<String> = Vec::new();
        fs.record_dir(root);
        let ghost ld = line_seqs(terminal_output@);
        let chars = chars_of(terminal_output);
        let lines = split_lines(&chars);
        proof {
            lemma_deep_view_chars(&lines);
            reveal_strlit("$ cd");
            reveal_strlit("$ ls");
            reveal_strlit("dir ");
        }
        let cdp = chars_of("$ cd");
        let lsp = chars_of("$ ls");
        let dirp = chars_of("dir ");
        proof {
            assert(cdp@ =~= cd_pat());
            assert(lsp@ =~= ls_pat());
            assert(dirp@ =~= dir_pat());
            assert(cur.deep_view() =~= Seq::<Seq<char>>::empty());
        }
        let mut j: usize = 0;
        while j < lines.len()
            invariant
                j <= lines@.len(),
                ld == line_seqs(terminal_output@),
                lines@.len() == ld.len(),
                forall|i: int| 0 <= i < lines@.len() ==> #[trigger] lines@[i]@ == ld[i],
                cdp@ == cd_pat(),
                lsp@ == ls_pat(),
                dirp@ == dir_pat(),
                es0 == self.entries(),
                build_from(ld, 0, Seq::empty(), insert_dir(es0, Seq::empty())) == build_from(
                    ld,
                    j as int,
                    cur.deep_view(),
                    fs.entries(),
                ),
            decreases lines.len() - j,
        {
            let ghost pre_cur = cur.deep_view();
            let ghost pre_es = fs.entries();
            let l = &lines[j];
            if has_prefix(l, &cdp) {
                let tailv = subvec(l, 4, l.len());
                let arg = trim(&tailv);
                proof {
                    assert(tailv@ =~= ld[j as int].skip(4));
                }
                if arg.len() == 1 && arg[0] == '/' {
                    proof {
                        assert(arg@ =~= seq!['/']);
                    }
                    cur = Vec::new();
                    proof {
                        assert(cur.deep_view() =~= Seq::<Seq<char>>::empty());
                    }
                } else if arg.len() == 2 && arg[0] == '.' && arg[1] == '.' {
                    proof {
                        assert(arg@ =~= seq!['.', '.']);
                        lemma_deep_view_strings(&cur);
                    }
                    let popped = cur.pop();
                    proof {
                        if pre_cur.len() > 0 {
                            assert(cur.deep_view() =~~= pre_cur.drop_last());
                        } else {
                            assert(cur.deep_view() =~~= pre_cur);
                        }
                    }
                } else {
                    proof {
                        if arg@.len() == 1 && arg@[0] == '/' {
                            assert(arg@ =~= seq!['/']);
                        }
                        if arg@.len() == 2 && arg@[0] == '.' && arg@[1] == '.' {
                            assert(arg@ =~= seq!['.', '.']);
                        }
                        assert(arg@ != seq!['/'] && arg@ != seq!['.', '.']);
                    }
                    let name = chars_to_string(&arg);
                    cur.push(name);
                    proof {
                        assert(cur.deep_view() =~~= pre_cur.push(arg@));
                    }
                }
            } else if has_prefix(l, &lsp) {
            } else if has_prefix(l, &dirp) {
                let tailv = subvec(l, 4, l.len());
                let namev = trim(&tailv);
                proof {
                    assert(tailv@ =~= ld[j as int].skip(4));
                }
                let mut newp = clone_path(&cur);
                newp.push(chars_to_string(&namev));
                proof {
                    assert(newp.deep_view() =~~= pre_cur.push(trim_ws(ld[j as int].skip(4))));
                }
                fs.record_dir(newp);
            } else if l.len() > 0 {
                proof {
                    lemma_find_pos(ld[j as int], ' ');
                }
                let p = find_char(l, 0, ' ');
                if p == l.len() {
                    proof {
                        assert(build_step(pre_cur, pre_es, ld[j as int]) is None);
                        assert(build_from(ld, j as int, pre_cur, pre_es) is None);
                    }
                    return None;
                }
                let szv = subvec(l, 0, p);
                let tailv = subvec(l, p, l.len());
                let nmv = trim(&tailv);
                proof {
                    assert(szv@ =~= ld[j as int].take(p as int));
                    assert(tailv@ =~= ld[j as int].skip(p as int));
                }
                let n = match parse_u64(&szv) {
                    Some(n) => n,
                    None => {
                        proof {
                            assert(build_step(pre_cur, pre_es, ld[j as int]) is None);
                            assert(build_from(ld, j as int, pre_cur, pre_es) is None);
                        }
                        return None;
                    },
                };
                if n > usize::MAX as u64 {
                    proof {
                        assert(build_step(pre_cur, pre_es, ld[j as int]) is None);
                        assert(build_from(ld, j as int, pre_cur, pre_es) is None);
                    }
                    return None;
                }
                let idx = fs.find_entry(&cur);
                proof {
                    lemma_find_key(fs.entries(), cur.deep_view());
                }
                if idx == fs.0.len() {
                    proof {
                        assert(find_key(pre_es, pre_cur) >= pre_es.len());
                        assert(build_step(pre_cur, pre_es, ld[j as int]) is None);
                        assert(build_from(ld, j as int, pre_cur, pre_es) is None);
                    }
                    return None;
                }
                let f = File { name: chars_to_string(&nmv), size: n as usize };
                fs.add_file_at(idx, f);
                proof {
                    assert(fs.entries() =~~= add_file(
                        pre_es,
                        pre_cur,
                        (trim_ws(ld[j as int].skip(p as int)), n as usize),
                    ));
                }
            }
            proof {
                assert(build_step(pre_cur, pre_es, ld[j as int]) == Some(
                    (cur.deep_view(), fs.entries()),
                ));
            }
            j = j + 1;
        }
        Some(fs)
    }
}

/// The total size of a file list.
pub open spec fn entry_sum(files: Seq<(Seq<char>, usize)>) -> int
    decreases files.len(),
{
    if files.len() == 0 {
        0
    } else {
        entry_sum(files.drop_last()) + files.last().1
    }
}

proof fn lemma_entry_sum_nonneg(files: Seq<(Seq<char>, usize)>)
    ensures
        entry_sum(files) >= 0,
    decreases files.len(),
{
    if files.len() > 0 {
        lemma_entry_sum_nonneg(files.drop_last());
    }
}

/// The total size of the files listed directly under `p`; 0 when `p` is not
/// in the table.
pub open spec fn sum_files_spec(es: EntriesV, p: Seq<Seq<char>>) -> int {
    if find_key(es, p) < es.len() {
        entry_sum(es[find_key(es, p) as int].1)
    } else {
        0
    }
}

/// The total size of every entry whose path extends `dir`, from entry `j` on.
pub open spec fn dir_size_spec(es: EntriesV, dir: Seq<Seq<char>>, j: int) -> int
    decreases es.len() - j,
{
    if j < 0 || j >= es.len() {
        0
    } else {
        (if dir.is_prefix_of(es[j].0) {
            entry_sum(es[j].1)
        } else {
            0
        }) + dir_size_spec(es, dir, j + 1)
    }
}

proof fn lemma_dir_size_nonneg(es: EntriesV, dir: Seq<Seq<char>>, j: int)
    ensures
        dir_size_spec(es, dir, j) >= 0,
    decreases es.len() - j,
{
    if 0 <= j < es.len() {
        lemma_dir_size_nonneg(es, dir, j + 1);
        lemma_entry_sum_nonneg(es[j].1);
    }
}

/// Whether the components of `a` start the path `b`.
fn path_prefix(a: &Vec<String>, b: &Vec<String>) -> (r: bool)
    ensures
        r == a.deep_view().is_prefix_of(b.deep_view()),
{
    proof {
        lemma_deep_view_strings(a);
        lemma_deep_view_strings(b);
    }
    if a.len() > b.len() {
        return false;
    }
    let mut k: usize = 0;
    while k < a.len()
        invariant
            k <= a@.len() <= b@.len(),
            a.deep_view().len() == a@.len(),
            b.deep_view().len() == b@.len(),
            forall|i: int| 0 <= i < a@.len() ==> #[trigger] a.deep_view()[i] == a@[i]@,
            forall|i: int| 0 <= i < b@.len() ==> #[trigger] b.deep_view()[i] == b@[i]@,
            forall|m: int| 0 <= m < k ==> a@[m]@ == b@[m]@,
        decreases a.len() - k,
    {
        let av: &String = &a[k];
        let bv: &String = &b[k];
        if !av.eq(bv) {
            proof {
                assert(a.deep_view()[k as int] != b.deep_view().subrange(
                    0,
                    a.deep_view().len() as int,
                )[k as int]);
            }
            return false;
        }
        k = k + 1;
    }
    proof {
        assert(a.deep_view() =~= b.deep_view().subrange(0, a.deep_view().len() as int));
    }
    true
}

impl FileSystem {
    /// The total size of the files listed directly under `dir`; 0 when `dir`
    /// is unknown.
    pub fn sum_files_size(&self, dir: &Vec<String>) -> (r: usize)
        requires
            sum_files_spec(self.entries(), dir.deep_view()) <= usize::MAX,
        ensures
            r == sum_files_spec(self.entries(), dir.deep_view()),
    {
        let idx = self.find_entry(dir);
        proof {
            lemma_find_key(self.entries(), dir.deep_view());
        }
        if idx == self.0.len() {
            return 0;
        }
        self.files_total(idx)
    }

    /// The total size of the files of the entry at `idx`.
    fn files_total(&self, idx: usize) -> (r: usize)
        requires
            idx < self.0@.len(),
            entry_sum(self.entries()[idx as int].1) <= usize::MAX,
        ensures
            r == entry_sum(self.entries()[idx as int].1),
    {
        let ghost fv = self.entries()[idx as int].1;
        let files = &self.0[idx].files;
        proof {
            assert(fv =~= files@.map_values(|f: File| (f.name@, f.size)));
        }
        let mut total: usize = 0;
        let mut m: usize = 0;
        proof {
            assert(fv.take(0) =~= Seq::<(Seq<char>, usize)>::empty());
        }
        while m < files.len()
            invariant
                m <= files@.len(),
                fv == self.entries()[idx as int].1,
                fv.len() == files@.len(),
                forall|i: int| 0 <= i < files@.len() ==> fv[i] == (files@[i].name@, files@[i].size),
                entry_sum(fv) <= usize::MAX,
                total == entry_sum(fv.take(m as int)),
            decreases files.len() - m,
        {
            proof {
                assert(fv.take(m + 1).drop_last() =~= fv.take(m as int));
                assert(fv.take(m + 1).last() == fv[m as int]);
                lemma_entry_sum_prefix(fv, m + 1);
                lemma_entry_sum_nonneg(fv.take(m as int));
            }
            total = total + files[m].size;
            m = m + 1;
        }
        proof {
            assert(fv.take(files@.len() as int) =~= fv);
        }
        total
    }

    /// The total size of `dir`: every file in it or anywhere below it.
    pub fn dir_size(&self, dir: &Vec<String>) -> (r: usize)
        requires
            dir_size_spec(self.entries(), dir.deep_view(), 0) <= usize::MAX,
        ensures
            r == dir_size_spec(self.entries(), dir.deep_view(), 0),
    {
        let ghost es = self.entries();
        let ghost dv = dir.deep_view();
        let mut size: usize = 0;
        let mut j: usize = 0;
        while j < self.0.len()
            invariant
                j <= self.0@.len(),
                es == self.entries(),
                dv == dir.deep_view(),
                es.len() == self.0@.len(),
                dir_size_spec(es, dv, 0) <= usize::MAX,
                size == dir_size_spec(es, dv, 0) - dir_size_spec(es, dv, j as int),
                size <= usize::MAX,
            decreases self.0.len() - j,
        {
            proof {
                lemma_dir_size_nonneg(es, dv, j as int);
                lemma_dir_size_nonneg(es, dv, j + 1);
                lemma_entry_sum_nonneg(es[j as int].1);
            }
            if path_prefix(dir, &self.0[j].path) {
                proof {
                    assert(es[j as int].0 == self.0@[j as int].key());
                    assert(dv.is_prefix_of(es[j as int].0));
                }
                let part = self.files_total(j);
                size = size + part;
            } else {
                proof {
                    assert(es[j as int].0 == self.0@[j as int].key());
                }
            }
            j = j + 1;
        }
        size
    }
}

/// Whether some entry has exactly the path `p`.
pub open spec fn has_key(es: EntriesV, p: Seq<Seq<char>>) -> bool {
    exists|j: int| 0 <= j < es.len() && #[trigger] es[j].0 == p
}

proof fn lemma_insert_dir_keeps(es: EntriesV, q: Seq<Seq<char>>, p: Seq<Seq<char>>)
    requires
        has_key(es, p),
    ensures
        has_key(insert_dir(es, q), p),
{
    let j = choose|j: int| 0 <= j < es.len() && #[trigger] es[j].0 == p;
    let idx = find_key(es, q);
    lemma_find_key(es, q);
    if idx < es.len() {
        if j == idx {
            assert(insert_dir(es, q)[j].0 == q && es[idx as int].0 == q);
        } else {
            assert(insert_dir(es, q)[j].0 == p);
        }
    } else {
        assert(insert_dir(es, q)[j].0 == p);
    }
}

proof fn lemma_build_keeps_key(
    ls: Seq<Seq<char>>,
    i: int,
    cur: Seq<Seq<char>>,
    es: EntriesV,
    p: Seq<Seq<char>>,
)
    requires
        has_key(es, p),
        build_from(ls, i, cur, es) is Some,
    ensures
        has_key(build_from(ls, i, cur, es)->Some_0.1, p),
    decreases ls.len() - i,
{
    if 0 <= i < ls.len() {
        let st = build_step(cur, es, ls[i])->Some_0;
        assert(has_key(st.1, p)) by {
            let l = ls[i];
            if cd_pat().is_prefix_of(l) || ls_pat().is_prefix_of(l) {
            } else if dir_pat().is_prefix_of(l) {
                lemma_insert_dir_keeps(es, cur.push(trim_ws(l.skip(4))), p);
            } else if l.len() > 0 {
                let j = choose|j: int| 0 <= j < es.len() && #[trigger] es[j].0 == p;
                assert(st.1[j].0 == p);
            }
        }
        lemma_build_keeps_key(ls, i + 1, st.0, st.1, p);
    }
}

/// The total of the directory sizes under 100000, from entry `j` on.
pub open spec fn small_dirs_sum(es: EntriesV, j: int) -> int
    decreases es.len() - j,
{
    if j < 0 || j >= es.len() {
        0
    } else {
        (if dir_size_spec(es, es[j].0, 0) < 100000 {
            dir_size_spec(es, es[j].0, 0)
        } else {
            0
        }) + small_dirs_sum(es, j + 1)
    }
}

proof fn lemma_small_dirs_nonneg(es: EntriesV, j: int)
    ensures
        small_dirs_sum(es, j) >= 0,
    decreases es.len() - j,
{
    if 0 <= j < es.len() {
        lemma_small_dirs_nonneg(es, j + 1);
        lemma_dir_size_nonneg(es, es[j].0, 0);
    }
}

/// The smaller of two optional values, treating `None` as absent.
pub open spec fn combine_min(a: Option<int>, b: Option<int>) -> Option<int> {
    match a {
        Option::None => b,
        Option::Some(x) => match b {
            Option::None => Some(x),
            Option::Some(y) => Some(
                if x <= y {
                    x
                } else {
                    y
                },
            ),
        },
    }
}

proof fn lemma_combine_assoc(a: Option<int>, b: Option<int>, c: Option<int>)
    ensures
        combine_min(a, combine_min(b, c)) == combine_min(combine_min(a, b), c),
{
}

/// The smallest directory size above `delta`, over the entries from `j` on.
pub open spec fn min_big_dir(es: EntriesV, j: int, delta: int) -> Option<int>
    decreases es.len() - j,
{
    if j < 0 || j >= es.len() {
        None
    } else {
        combine_min(
            if dir_size_spec(es, es[j].0, 0) > delta {
                Some(dir_size_spec(es, es[j].0, 0))
            } else {
                None
            },
            min_big_dir(es, j + 1, delta),
        )
    }
}

proof fn lemma_min_big_some(es: EntriesV, j: int, w: int, delta: int)
    requires
        0 <= j <= w < es.len(),
        dir_size_spec(es, es[w].0, 0) > delta,
    ensures
        min_big_dir(es, j, delta) is Some,
    decreases w - j,
{
    if j < w {
        lemma_min_big_some(es, j + 1, w, delta);
    }
}

/// Whether the terminal output parses into a directory table.
pub open spec fn day7_ok(s: Seq<char>) -> bool {
    day7_built(s, Seq::empty()) is Some
}

/// The directory table read from `s`.
pub open spec fn day7_entries(s: Seq<char>) -> EntriesV {
    day7_built(s, Seq::empty())->Some_0
}

/// The size of the root directory: every file anywhere.
pub open spec fn day7_used(s: Seq<char>) -> int {
    dir_size_spec(day7_entries(s), Seq::empty(), 0)
}

/// What the computation needs of the sizes: every directory size and the
/// small-directory total fit `usize`, and the root holds between 40000000
/// and 70000000 in all.
pub open spec fn day7_limits_ok(s: Seq<char>) -> bool {
    let es = day7_entries(s);
    &&& forall|j: int| 0 <= j < es.len() ==> dir_size_spec(es, #[trigger] es[j].0, 0) <= usize::MAX
    &&& small_dirs_sum(es, 0) <= usize::MAX
    &&& 40000000 <= day7_used(s) <= 70000000
}

/// Sum the sizes of the directories under 100000, and find the smallest
/// directory whose deletion frees enough space; `None` exactly when the
/// terminal output does not parse.
pub fn solution(contents: &str) -> (r: Option<(String, String)>)
    requires
        day7_ok(contents@) ==> day7_limits_ok(contents@),
    ensures
        r is Some <==> day7_ok(contents@),
        r is Some ==> r->Some_0.0@ == dec_nat(small_dirs_sum(day7_entries(contents@), 0)),
        r is Some ==> r->Some_0.1@ == dec_nat(
            min_big_dir(day7_entries(contents@), 0, day7_used(contents@) - 40000000)->Some_0,
        ),
{
    let fs0 = FileSystem(Vec::new());
    proof {
        assert(fs0.entries() =~= Seq::<(Seq<Seq<char>>, Seq<(Seq<char>, usize)>)>::empty());
    }
    let fs = match fs0.build(contents) {
        Some(f) => f,
        None => {
            return None;
        },
    };
    let ghost es = day7_entries(contents@);
    proof {
        assert(fs.entries() == es);
    }
    let mut res1: usize = 0;
    let mut j: usize = 0;
    while j < fs.0.len()
        invariant
            j <= fs.0@.len(),
            es == day7_entries(contents@),
            fs.entries() == es,
            es.len() == fs.0@.len(),
            day7_limits_ok(contents@),
            res1 == small_dirs_sum(es, 0) - small_dirs_sum(es, j as int),
            res1 <= usize::MAX,
        decreases fs.0.len() - j,
    {
        proof {
            assert(es[j as int].0 == fs.0@[j as int].key());
            lemma_small_dirs_nonneg(es, j as int);
            lemma_small_dirs_nonneg(es, j + 1);
            lemma_dir_size_nonneg(es, es[j as int].0, 0);
        }
        let sz = fs.dir_size(&fs.0[j].path);
        if sz < 100000 {
            res1 = res1 + sz;
        }
        j = j + 1;
    }
    proof {
        assert(small_dirs_sum(es, es.len() as int) == 0);
    }
    let root: Vec<String> = Vec::new();
    proof {
        assert(root.deep_view() =~= Seq::<Seq<char>>::empty());
    }
    let used = fs.dir_size(&root);
    let delta = 30000000 - (70000000 - used);
    let mut has_best = false;
    let mut best: usize = 0;
    let mut k: usize = 0;
    while k < fs.0.len()
        invariant
            k <= fs.0@.len(),
            es == day7_entries(contents@),
            fs.entries() == es,
            es.len() == fs.0@.len(),
            day7_limits_ok(contents@),
            delta == day7_used(contents@) - 40000000,
            combine_min(
                if has_best {
                    Some(best as int)
                } else {
                    None
                },
                min_big_dir(es, k as int, delta as int),
            ) == min_big_dir(es, 0, delta as int),
        decreases fs.0.len() - k,
    {
        proof {
            assert(es[k as int].0 == fs.0@[k as int].key());
        }
        let sz = fs.dir_size(&fs.0[k].path);
        let ghost before = if has_best {
            Some(best as int)
        } else {
            None
        };
        let ghost term = if sz > delta {
            Some(sz as int)
        } else {
            None
        };
        if sz > delta {
            if !has_best || sz < best {
                best = sz;
            }
            has_best = true;
        }
        proof {
            lemma_combine_assoc(before, term, min_big_dir(es, k + 1, delta as int));
        }
        k = k + 1;
    }
    proof {
        assert(min_big_dir(es, es.len() as int, delta as int) is None);
        assert(has_key(es, Seq::<Seq<char>>::empty())) by {
            let es_init = insert_dir(
                Seq::<(Seq<Seq<char>>, Seq<(Seq<char>, usize)>)>::empty(),
                Seq::<Seq<char>>::empty(),
            );
            assert(es_init[0].0 == Seq::<Seq<char>>::empty());
            assert(has_key(es_init, Seq::<Seq<char>>::empty()));
            lemma_build_keeps_key(
                line_seqs(contents@),
                0,
                Seq::empty(),
                es_init,
                Seq::<Seq<char>>::empty(),
            );
        }
        let w = choose|w: int| 0 <= w < es.len() && #[trigger] es[w].0 == Seq::<Seq<char>>::empty();
        assert(dir_size_spec(es, es[w].0, 0) > delta);
        lemma_min_big_some(es, 0, w, delta as int);
    }
    Some((usize_string(res1), usize_string(best)))
}

proof fn lemma_entry_sum_prefix(files: Seq<(Seq<char>, usize)>, m: int)
    requires
        0 <= m <= files.len(),
    ensures
        entry_sum(files.take(m)) <= entry_sum(files),
    decreases files.len() - m,
{
    if m < files.len() {
        lemma_entry_sum_prefix(files, m + 1);
        assert(files.take(m + 1).drop_last() =~= files.take(m));
    } else {
        assert(files.take(m) =~= files);
    }
}

} // verus!
