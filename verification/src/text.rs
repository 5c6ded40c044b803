use vstd::prelude::*;
use vstd::string::StrSliceExecFns;

verus! {

/// The characters of `s`, in order.
pub fn chars_of(s: &str) -> (r: Vec<char>)
    ensures
        r@ == s@,
{
    let n = s.unicode_len();
    let mut r: Vec<char> = Vec::new();
    let mut i: usize = 0;
    while i < n
        invariant
            n == s@.len(),
            i <= n,
            r@ == s@.subrange(0, i as int),
        decreases n - i,
    {
        let c = s.get_char(i);
        r.push(c);
        i = i + 1;
        proof {
            assert(r@ =~= s@.subrange(0, i as int));
        }
    }
    proof {
        assert(r@ =~= s@);
    }
    r
}

/// Relies on `String::from_iter` (via `Iterator::collect`): the resulting
/// string holds exactly the given characters, in order.
#[verifier::external_body]
pub fn chars_to_string(v: &Vec<char>) -> (s: String)
    ensures
        s@ == v@,
{
    v.iter().collect()
}

/// A copy of `v[i..j]`.
pub fn subvec(v: &Vec<char>, i: usize, j: usize) -> (r: Vec<char>)
    requires
        i <= j <= v.len(),
    ensures
        r@ == v@.subrange(i as int, j as int),
{
    let mut r: Vec<char> = Vec::new();
    let mut k: usize = i;
    while k < j
        invariant
            i <= k <= j <= v.len(),
            r@ == v@.subrange(i as int, k as int),
        decreases j - k,
    {
        r.push(v[k]);
        k = k + 1;
        proof {
            assert(r@ =~= v@.subrange(i as int, k as int));
        }
    }
    r
}

/// Whether `p` is a prefix of `v`.
pub fn has_prefix(v: &Vec<char>, p: &Vec<char>) -> (r: bool)
    ensures
        r == p@.is_prefix_of(v@),
{
    if p.len() > v.len() {
        return false;
    }
    let mut k: usize = 0;
    while k < p.len()
        invariant
            p.len() <= v.len(),
            k <= p.len(),
            forall|m: int| 0 <= m < k ==> v@[m] == p@[m],
        decreases p.len() - k,
    {
        if v[k] != p[k] {
            assert(!p@.is_prefix_of(v@)) by {
                assert(p@[k as int] != v@.subrange(0, p@.len() as int)[k as int]);
            }
            return false;
        }
        k = k + 1;
    }
    proof {
        assert(p@ =~= v@.subrange(0, p@.len() as int));
    }
    true
}

/// Whether the two vectors hold the same characters.
pub fn eq_chars(v: &Vec<char>, w: &Vec<char>) -> (r: bool)
    ensures
        r == (v@ == w@),
{
    if v.len() != w.len() {
        return false;
    }
    let mut k: usize = 0;
    while k < v.len()
        invariant
            v.len() == w.len(),
            k <= v.len(),
            forall|m: int| 0 <= m < k ==> v@[m] == w@[m],
        decreases v.len() - k,
    {
        if v[k] != w[k] {
            return false;
        }
        k = k + 1;
    }
    proof {
        assert(v@ =~= w@);
    }
    true
}

/// Index of the first occurrence of `c` in `s`, or `s.len()` if there is none.
pub open spec fn find_pos(s: Seq<char>, c: char) -> nat
    decreases s.len(),
{
    if s.len() == 0 {
        0
    } else if s[0] == c {
        0
    } else {
        1 + find_pos(s.drop_first(), c)
    }
}

pub proof fn lemma_find_pos(s: Seq<char>, c: char)
    ensures
        find_pos(s, c) <= s.len(),
        find_pos(s, c) < s.len() ==> s[find_pos(s, c) as int] == c,
        forall|k: int| 0 <= k < find_pos(s, c) ==> s[k] != c,
    decreases s.len(),
{
    if s.len() > 0 && s[0] != c {
        lemma_find_pos(s.drop_first(), c);
        assert forall|k: int| 0 <= k < find_pos(s, c) implies s[k] != c by {
            if k > 0 {
                assert(s.drop_first()[k - 1] != c);
            }
        }
    }
}

/// Find the first occurrence of `c` in `v` at or after `from`.
pub fn find_char(v: &Vec<char>, from: usize, c: char) -> (r: usize)
    requires
        from <= v.len(),
    ensures
        r == from + find_pos(v@.skip(from as int), c),
        r <= v.len(),
        r < v.len() ==> v@[r as int] == c,
        forall|k: int| from <= k < r ==> v@[k] != c,
{
    proof {
        lemma_find_pos(v@.skip(from as int), c);
    }
    let ghost tail = v@.skip(from as int);
    let mut j: usize = from;
    while j < v.len()
        invariant
            from <= j <= v.len(),
            tail == v@.skip(from as int),
            forall|k: int| from <= k < j ==> v@[k] != c,
            find_pos(tail, c) >= j - from,
        decreases v.len() - j,
    {
        if v[j] == c {
            proof {
                lemma_find_pos(tail, c);
                assert(tail[j - from] == c);
            }
            return j;
        }
        j = j + 1;
        proof {
            lemma_find_pos(tail, c);
            assert(forall|k: int| 0 <= k < j - from ==> tail[k] == v@[from + k] && tail[k] != c);
            if find_pos(tail, c) < j - from {
                assert(tail[find_pos(tail, c) as int] == c);
            }
        }
    }
    proof {
        lemma_find_pos(tail, c);
    }
    j
}

/// The pieces of `s` split at each occurrence of `c`; a string with `n`
/// occurrences gives `n + 1` pieces, empty pieces kept.
pub open spec fn split_char(s: Seq<char>, c: char) -> Seq<Seq<char>>
    decreases s.len(),
{
    let e = find_pos(s, c);
    if e >= s.len() {
        seq![s]
    } else {
        seq![s.take(e as int)] + split_char(s.skip(e + 1 as int), c)
    }
}

pub proof fn lemma_split_char_len(s: Seq<char>, c: char)
    ensures
        split_char(s, c).len() >= 1,
    decreases s.len(),
{
    lemma_find_pos(s, c);
}

/// Split `v` at every occurrence of `c`, keeping empty pieces.
pub fn split_by_char(v: &Vec<char>, c: char) -> (r: Vec<Vec<char>>)
    ensures
        r.deep_view() == split_char(v@, c),
{
    let mut r: Vec<Vec<char>> = Vec::new();
    let mut pos: usize = 0;
    proof {
        assert(v@.skip(0) =~= v@);
        assert(r.deep_view() + split_char(v@.skip(0), c) =~~= split_char(v@, c));
    }
    loop
        invariant
            pos <= v.len(),
            split_char(v@, c) == r.deep_view() + split_char(v@.skip(pos as int), c),
        decreases v.len() - pos,
    {
        let ghost tail = v@.skip(pos as int);
        let e = find_char(v, pos, c);
        let piece = subvec(v, pos, e);
        proof {
            lemma_find_pos(tail, c);
            assert(find_pos(tail, c) == e - pos);
            assert(tail.take(e - pos) =~= v@.subrange(pos as int, e as int));
        }
        let ghost old_r = r.deep_view();
        r.push(piece);
        proof {
            assert(r.deep_view() =~~= old_r + seq![piece@]);
        }
        if e == v.len() {
            proof {
                assert(tail.take(e - pos) =~= tail);
                assert(split_char(tail, c) == seq![tail]);
                assert(split_char(v@, c) =~~= r.deep_view());
            }
            return r;
        }
        proof {
            assert(split_char(tail, c) == seq![tail.take(e - pos)] + split_char(
                tail.skip(e - pos + 1),
                c,
            ));
            assert(tail.skip(e - pos + 1) =~= v@.skip(e + 1));
            assert(split_char(v@, c) =~~= (old_r + seq![piece@]) + split_char(v@.skip(e + 1), c));
        }
        pos = e + 1;
    }
}

/// A line piece with a trailing carriage return removed.
pub open spec fn strip_cr(s: Seq<char>) -> Seq<char> {
    if s.len() > 0 && s.last() == '\r' {
        s.drop_last()
    } else {
        s
    }
}

/// The lines of `s`: pieces split at `'\n'`, each with a trailing `'\r'`
/// removed, and with no final empty piece when `s` ends in a newline.
pub open spec fn line_seqs(s: Seq<char>) -> Seq<Seq<char>>
    decreases s.len(),
{
    if s.len() == 0 {
        Seq::empty()
    } else {
        let e = find_pos(s, '\n');
        if e >= s.len() {
            seq![strip_cr(s)]
        } else {
            seq![strip_cr(s.take(e as int))] + line_seqs(s.skip(e + 1 as int))
        }
    }
}

/// Split `v` into its lines.
pub fn split_lines(v: &Vec<char>) -> (r: Vec<Vec<char>>)
    ensures
        r.deep_view() == line_seqs(v@),
{
    let mut r: Vec<Vec<char>> = Vec::new();
    let mut pos: usize = 0;
    proof {
        assert(v@.skip(0) =~= v@);
        assert(r.deep_view() + line_seqs(v@.skip(0)) =~~= line_seqs(v@));
    }
    while pos < v.len()
        invariant
            pos <= v.len(),
            line_seqs(v@) == r.deep_view() + line_seqs(v@.skip(pos as int)),
        decreases v.len() - pos,
    {
        let ghost tail = v@.skip(pos as int);
        let e = find_char(v, pos, '\n');
        let mut piece = subvec(v, pos, e);
        proof {
            lemma_find_pos(tail, '\n');
            assert(find_pos(tail, '\n') == e - pos);
            assert(tail.take(e - pos) =~= v@.subrange(pos as int, e as int));
        }
        if piece.len() > 0 && piece[piece.len() - 1] == '\r' {
            piece.pop();
        }
        proof {
            assert(piece@ =~= strip_cr(tail.take(e - pos)));
        }
        let ghost old_r = r.deep_view();
        r.push(piece);
        proof {
            assert(r.deep_view() =~~= old_r + seq![piece@]);
        }
        if e == v.len() {
            proof {
                assert(tail.take(e - pos) =~= tail);
                assert(line_seqs(tail) == seq![strip_cr(tail)]);
                assert(line_seqs(v@) =~~= r.deep_view());
                assert(v@.skip(v.len() as int) =~= Seq::<char>::empty());
            }
            pos = e;
        } else {
            proof {
                assert(line_seqs(tail) == seq![strip_cr(tail.take(e - pos))] + line_seqs(
                    tail.skip(e - pos + 1),
                ));
                assert(tail.skip(e - pos + 1) =~= v@.skip(e + 1));
                assert(line_seqs(v@) =~~= (old_r + seq![piece@]) + line_seqs(v@.skip(e + 1)));
            }
            pos = e + 1;
        }
    }
    proof {
        assert(v@.skip(pos as int) =~= Seq::<char>::empty());
        assert(line_seqs(v@) =~~= r.deep_view());
    }
    r
}

/// The deep view of a vector of character vectors indexes as the plain views do.
pub proof fn lemma_deep_view_chars(v: &Vec<Vec<char>>)
    ensures
        v.deep_view().len() == v@.len(),
        forall|i: int| 0 <= i < v@.len() ==> #[trigger] v.deep_view()[i] == v@[i]@,
{
    assert forall|i: int| 0 <= i < v@.len() implies #[trigger] v.deep_view()[i] == v@[i]@ by {
        assert(v@[i].deep_view() =~= v@[i]@);
    }
}

pub open spec fn is_space(c: char) -> bool {
    c == ' ' || c == '\t' || c == '\r' || c == '\n'
}

/// Index of the first whitespace character, or `s.len()` if there is none.
pub open spec fn space_pos(s: Seq<char>) -> nat
    decreases s.len(),
{
    if s.len() == 0 {
        0
    } else if is_space(s[0]) {
        0
    } else {
        1 + space_pos(s.drop_first())
    }
}

pub proof fn lemma_space_pos(s: Seq<char>)
    ensures
        space_pos(s) <= s.len(),
        space_pos(s) < s.len() ==> is_space(s[space_pos(s) as int]),
        forall|k: int| 0 <= k < space_pos(s) ==> !is_space(s[k]),
    decreases s.len(),
{
    if s.len() > 0 && !is_space(s[0]) {
        lemma_space_pos(s.drop_first());
        assert forall|k: int| 0 <= k < space_pos(s) implies !is_space(s[k]) by {
            if k > 0 {
                assert(!is_space(s.drop_first()[k - 1]));
            }
        }
    }
}

/// The whitespace-separated tokens of `s`, in order, with no empty tokens.
pub open spec fn split_ws(s: Seq<char>) -> Seq<Seq<char>>
    decreases s.len(),
{
    if s.len() == 0 {
        Seq::empty()
    } else if is_space(s[0]) {
        split_ws(s.drop_first())
    } else {
        let t = space_pos(s);
        if t >= s.len() {
            seq![s]
        } else {
            seq![s.take(t as int)] + split_ws(s.skip(t as int))
        }
    }
}

/// Find the first whitespace character in `v` at or after `from`.
fn find_space(v: &Vec<char>, from: usize) -> (r: usize)
    requires
        from <= v.len(),
    ensures
        r == from + space_pos(v@.skip(from as int)),
        r <= v.len(),
{
    proof {
        lemma_space_pos(v@.skip(from as int));
    }
    let ghost tail = v@.skip(from as int);
    let mut j: usize = from;
    while j < v.len()
        invariant
            from <= j <= v.len(),
            tail == v@.skip(from as int),
            forall|k: int| from <= k < j ==> !is_space(v@[k]),
            space_pos(tail) >= j - from,
        decreases v.len() - j,
    {
        let c = v[j];
        if c == ' ' || c == '\t' || c == '\r' || c == '\n' {
            proof {
                lemma_space_pos(tail);
                assert(is_space(tail[j - from]));
            }
            return j;
        }
        j = j + 1;
        proof {
            lemma_space_pos(tail);
            assert(forall|k: int|
                0 <= k < j - from ==> tail[k] == v@[from + k] && !is_space(tail[k]));
            if space_pos(tail) < j - from {
                assert(is_space(tail[space_pos(tail) as int]));
            }
        }
    }
    proof {
        lemma_space_pos(tail);
    }
    j
}

/// Split `v` into whitespace-separated tokens, dropping all whitespace.
pub fn split_whitespace(v: &Vec<char>) -> (r: Vec<Vec<char>>)
    ensures
        r.deep_view() == split_ws(v@),
{
    let mut r: Vec<Vec<char>> = Vec::new();
    let mut pos: usize = 0;
    proof {
        assert(v@.skip(0) =~= v@);
        assert(r.deep_view() + split_ws(v@.skip(0)) =~~= split_ws(v@));
    }
    while pos < v.len()
        invariant
            pos <= v.len(),
            split_ws(v@) == r.deep_view() + split_ws(v@.skip(pos as int)),
        decreases v.len() - pos,
    {
        let ghost tail = v@.skip(pos as int);
        let c = v[pos];
        if c == ' ' || c == '\t' || c == '\r' || c == '\n' {
            proof {
                assert(split_ws(tail) == split_ws(tail.drop_first()));
                assert(tail.drop_first() =~= v@.skip(pos + 1));
            }
            pos = pos + 1;
        } else {
            let e = find_space(v, pos);
            let piece = subvec(v, pos, e);
            proof {
                lemma_space_pos(tail);
                assert(space_pos(tail) == e - pos);
                assert(tail.take(e - pos) =~= v@.subrange(pos as int, e as int));
            }
            let ghost old_r = r.deep_view();
            r.push(piece);
            proof {
                assert(r.deep_view() =~~= old_r + seq![piece@]);
                if e == v.len() {
                    assert(tail.take(e - pos) =~= tail);
                    assert(split_ws(tail) == seq![tail]);
                    assert(v@.skip(e as int) =~= Seq::<char>::empty());
                    assert(split_ws(v@) =~~= r.deep_view() + split_ws(v@.skip(e as int)));
                } else {
                    assert(split_ws(tail) == seq![tail.take(e - pos)] + split_ws(
                        tail.skip(e - pos),
                    ));
                    assert(tail.skip(e - pos) =~= v@.skip(e as int));
                    assert(split_ws(v@) =~~= (old_r + seq![piece@]) + split_ws(v@.skip(e as int)));
                }
            }
            pos = e;
        }
    }
    proof {
        assert(v@.skip(pos as int) =~= Seq::<char>::empty());
        assert(split_ws(v@) =~~= r.deep_view());
    }
    r
}

/// Index of the first non-whitespace character, or `s.len()` if there is none.
pub open spec fn nonspace_pos(s: Seq<char>) -> nat
    decreases s.len(),
{
    if s.len() == 0 {
        0
    } else if !is_space(s[0]) {
        0
    } else {
        1 + nonspace_pos(s.drop_first())
    }
}

pub proof fn lemma_nonspace_pos(s: Seq<char>)
    ensures
        nonspace_pos(s) <= s.len(),
        nonspace_pos(s) < s.len() ==> !is_space(s[nonspace_pos(s) as int]),
        forall|k: int| 0 <= k < nonspace_pos(s) ==> is_space(s[k]),
    decreases s.len(),
{
    if s.len() > 0 && is_space(s[0]) {
        lemma_nonspace_pos(s.drop_first());
        assert forall|k: int| 0 <= k < nonspace_pos(s) implies is_space(s[k]) by {
            if k > 0 {
                assert(is_space(s.drop_first()[k - 1]));
            }
        }
    }
}

/// Index just past the last non-whitespace character, or `0` if all whitespace.
pub open spec fn trim_end_pos(s: Seq<char>) -> nat
    decreases s.len(),
{
    if s.len() == 0 {
        0
    } else if is_space(s.last()) {
        trim_end_pos(s.drop_last())
    } else {
        s.len()
    }
}

pub proof fn lemma_trim_end_pos(s: Seq<char>)
    ensures
        trim_end_pos(s) <= s.len(),
        trim_end_pos(s) > 0 ==> !is_space(s[trim_end_pos(s) - 1]),
        forall|k: int| trim_end_pos(s) <= k < s.len() ==> is_space(s[k]),
    decreases s.len(),
{
    if s.len() > 0 && is_space(s.last()) {
        lemma_trim_end_pos(s.drop_last());
        assert forall|k: int| trim_end_pos(s) <= k < s.len() implies is_space(s[k]) by {
            if k < s.len() - 1 {
                assert(is_space(s.drop_last()[k]));
            }
        }
    }
}

/// `s` with leading and trailing whitespace removed.
pub open spec fn trim_ws(s: Seq<char>) -> Seq<char> {
    let t = s.skip(nonspace_pos(s) as int);
    t.take(trim_end_pos(t) as int)
}

/// Whether `c` is whitespace.
pub fn space_char(c: char) -> (r: bool)
    ensures
        r == is_space(c),
{
    c == ' ' || c == '\t' || c == '\r' || c == '\n'
}

/// A copy of `v` with leading and trailing whitespace removed.
pub fn trim(v: &Vec<char>) -> (r: Vec<char>)
    ensures
        r@ == trim_ws(v@),
{
    proof {
        lemma_nonspace_pos(v@);
    }
    let mut i: usize = 0;
    while i < v.len() && space_char(v[i])
        invariant
            i <= v.len(),
            forall|k: int| 0 <= k < i ==> is_space(v@[k]),
            nonspace_pos(v@) >= i,
        decreases v.len() - i,
    {
        i = i + 1;
        proof {
            lemma_nonspace_pos(v@);
            if nonspace_pos(v@) < i {
                assert(!is_space(v@[nonspace_pos(v@) as int]));
            }
        }
    }
    proof {
        lemma_nonspace_pos(v@);
        assert(nonspace_pos(v@) == i);
    }
    let ghost t = v@.skip(i as int);
    let mut j: usize = v.len();
    proof {
        lemma_trim_end_pos(t);
    }
    while j > i && space_char(v[j - 1])
        invariant
            i <= j <= v.len(),
            t == v@.skip(i as int),
            forall|k: int| j <= k < v.len() ==> is_space(v@[k]),
            trim_end_pos(t) <= j - i,
        decreases j,
    {
        j = j - 1;
        proof {
            lemma_trim_end_pos_step(t, j - i);
        }
    }
    proof {
        lemma_trim_end_pos(t);
        if j > i {
            assert(!is_space(t[j - i - 1]));
            lemma_trim_end_pos_lower(t, j - i);
        }
        assert(trim_end_pos(t) == j - i);
    }
    let r = subvec(v, i, j);
    proof {
        assert(r@ =~= t.take(trim_end_pos(t) as int));
    }
    r
}

/// If everything from `m` on is whitespace, the trimmed end is at most `m`.
proof fn lemma_trim_end_pos_step(s: Seq<char>, m: int)
    requires
        0 <= m <= s.len(),
        forall|k: int| m <= k < s.len() ==> is_space(s[k]),
    ensures
        trim_end_pos(s) <= m,
    decreases s.len(),
{
    lemma_trim_end_pos(s);
    if s.len() > 0 && m < s.len() {
        assert(is_space(s.last()));
        assert(forall|k: int| m <= k < s.len() - 1 ==> is_space(s.drop_last()[k]));
        lemma_trim_end_pos_step(s.drop_last(), m);
    }
}

/// If the character before `m` is not whitespace, the trimmed end is at least `m`.
proof fn lemma_trim_end_pos_lower(s: Seq<char>, m: int)
    requires
        0 < m <= s.len(),
        !is_space(s[m - 1]),
    ensures
        trim_end_pos(s) >= m,
    decreases s.len(),
{
    if s.len() > 0 && is_space(s.last()) {
        assert(m < s.len());
        assert(s.drop_last()[m - 1] == s[m - 1]);
        lemma_trim_end_pos_lower(s.drop_last(), m);
    }
}

/// Index of the first occurrence of `p` in `s`, or `s.len() + 1` when there
/// is none (and `p` is not empty).
pub open spec fn find_sub(s: Seq<char>, p: Seq<char>) -> nat
    decreases s.len(),
{
    if p.is_prefix_of(s) {
        0
    } else if s.len() == 0 {
        1
    } else {
        1 + find_sub(s.drop_first(), p)
    }
}

pub proof fn lemma_find_sub(s: Seq<char>, p: Seq<char>)
    requires
        p.len() >= 1,
    ensures
        find_sub(s, p) <= s.len() + 1,
        find_sub(s, p) + p.len() <= s.len() ==> s.subrange(
            find_sub(s, p) as int,
            find_sub(s, p) + p.len() as int,
        ) == p,
        forall|k: int|
            0 <= k < find_sub(s, p) && k + p.len() <= s.len() ==> #[trigger] s.subrange(
                k,
                k + p.len() as int,
            ) != p,
    decreases s.len(),
{
    if p.is_prefix_of(s) {
        assert(s.subrange(0, p.len() as int) =~= p);
    } else if s.len() > 0 {
        lemma_find_sub(s.drop_first(), p);
        assert forall|k: int|
            0 <= k < find_sub(s, p) && k + p.len() <= s.len() implies #[trigger] s.subrange(
                k,
                k + p.len() as int,
            ) != p by {
            if k == 0 {
                if s.subrange(0, p.len() as int) == p {
                    assert(p.is_prefix_of(s));
                }
            } else {
                assert(s.drop_first().subrange(k - 1, k - 1 + p.len()) =~= s.subrange(
                    k,
                    k + p.len(),
                ));
            }
        }
    } else {
        if p.is_prefix_of(s) {
        } else {
            assert(find_sub(s, p) == 1);
        }
    }
}

/// The pieces of `s` split at each non-overlapping occurrence of `p`.
pub open spec fn split_sub(s: Seq<char>, p: Seq<char>) -> Seq<Seq<char>>
    decreases s.len(),
{
    if p.len() == 0 {
        seq![s]
    } else {
        let e = find_sub(s, p);
        if e + p.len() > s.len() {
            seq![s]
        } else {
            seq![s.take(e as int)] + split_sub(s.skip(e + p.len() as int), p)
        }
    }
}

/// Find the first occurrence of `p` in `v` at or after `from`; `v.len()`
/// stands for none.
fn find_sub_at(v: &Vec<char>, from: usize, p: &Vec<char>) -> (r: usize)
    requires
        from <= v.len(),
        p@.len() >= 1,
    ensures
        r <= v.len(),
        r + p@.len() <= v@.len() ==> r - from == find_sub(v@.skip(from as int), p@) && v@.subrange(
            r as int,
            r + p@.len(),
        ) == p@,
        r + p@.len() > v@.len() ==> find_sub(v@.skip(from as int), p@) + p@.len() > v@.len()
            - from,
{
    let ghost tail = v@.skip(from as int);
    proof {
        lemma_find_sub(tail, p@);
    }
    if p.len() > v.len() {
        return v.len();
    }
    let bound = v.len() - p.len();
    let mut j: usize = from;
    while j <= bound
        invariant
            from <= j,
            j <= v.len() + 1,
            bound == v@.len() - p@.len(),
            p@.len() <= v@.len(),
            p@.len() >= 1,
            tail == v@.skip(from as int),
            forall|k: int|
                0 <= k < j - from && k + p@.len() <= tail.len() ==> #[trigger] tail.subrange(
                    k,
                    k + p@.len() as int,
                ) != p@,
        decreases v.len() + 1 - j,
    {
        let sub = subvec(v, j, j + p.len());
        proof {
            assert(j + p@.len() <= v@.len());
        }
        if eq_chars(&sub, p) {
            proof {
                assert(tail.subrange(j - from, j - from + p@.len()) =~= v@.subrange(
                    j as int,
                    j + p@.len(),
                ));
                lemma_find_sub(tail, p@);
                assert(find_sub(tail, p@) == j - from) by {
                    if find_sub(tail, p@) < j - from {
                        assert(tail.subrange(
                            find_sub(tail, p@) as int,
                            find_sub(tail, p@) + p@.len() as int,
                        ) == p@);
                    }
                    if find_sub(tail, p@) > j - from {
                        assert(tail.subrange(j - from, j - from + p@.len()) != p@);
                    }
                }
            }
            return j;
        }
        proof {
            assert(tail.subrange(j - from, j - from + p@.len()) =~= v@.subrange(
                j as int,
                j + p@.len(),
            ));
        }
        j = j + 1;
    }
    proof {
        lemma_find_sub(tail, p@);
        if find_sub(tail, p@) + p@.len() <= tail.len() {
            assert(tail.subrange(
                find_sub(tail, p@) as int,
                find_sub(tail, p@) + p@.len() as int,
            ) == p@);
        }
    }
    v.len()
}

/// Split `v` at every occurrence of `pat`, left to right, not overlapping.
pub fn split_by_sub(v: &Vec<char>, pat: &Vec<char>) -> (r: Vec<Vec<char>>)
    requires
        pat@.len() >= 1,
    ensures
        r.deep_view() == split_sub(v@, pat@),
{
    let mut r: Vec<Vec<char>> = Vec::new();
    let mut pos: usize = 0;
    proof {
        assert(v@.skip(0) =~= v@);
        assert(r.deep_view() + split_sub(v@.skip(0), pat@) =~~= split_sub(v@, pat@));
    }
    loop
        invariant
            pos <= v.len(),
            pat@.len() >= 1,
            split_sub(v@, pat@) == r.deep_view() + split_sub(v@.skip(pos as int), pat@),
        decreases v.len() - pos,
    {
        let ghost tail = v@.skip(pos as int);
        let e = find_sub_at(v, pos, pat);
        let ghost fs = find_sub(tail, pat@);
        if pat.len() > v.len() || e > v.len() - pat.len() {
            let piece = subvec(v, pos, v.len());
            proof {
                assert(piece@ =~= tail);
                assert(split_sub(tail, pat@) == seq![tail]);
            }
            let ghost old_r = r.deep_view();
            r.push(piece);
            proof {
                assert(r.deep_view() =~~= old_r + seq![tail]);
                assert(split_sub(v@, pat@) =~~= r.deep_view());
            }
            return r;
        }
        let piece = subvec(v, pos, e);
        proof {
            lemma_find_sub(tail, pat@);
            assert(fs == e - pos);
            assert(piece@ =~= tail.take(e - pos));
        }
        let ghost old_r = r.deep_view();
        r.push(piece);
        proof {
            assert(r.deep_view() =~~= old_r + seq![piece@]);
            assert(split_sub(tail, pat@) == seq![tail.take(fs as int)] + split_sub(
                tail.skip(fs + pat@.len() as int),
                pat@,
            ));
            assert(tail.skip(fs + pat@.len() as int) =~= v@.skip(e + pat@.len()));
            assert(split_sub(v@, pat@) =~~= (old_r + seq![piece@]) + split_sub(
                v@.skip(e + pat@.len()),
                pat@,
            ));
        }
        pos = e + pat.len();
    }
}

/// Trimming never lengthens.
pub proof fn lemma_trim_len(s: Seq<char>)
    ensures
        trim_ws(s).len() <= s.len(),
{
    lemma_nonspace_pos(s);
    lemma_trim_end_pos(s.skip(nonspace_pos(s) as int));
}

/// Every piece of a substring split is at most as long as the source.
pub proof fn lemma_split_sub_lens(s: Seq<char>, p: Seq<char>)
    requires
        p.len() >= 1,
    ensures
        forall|k: int|
            0 <= k < split_sub(s, p).len() ==> (#[trigger] split_sub(s, p)[k]).len() <= s.len(),
    decreases s.len(),
{
    lemma_find_sub(s, p);
    let e = find_sub(s, p);
    if e + p.len() <= s.len() {
        lemma_split_sub_lens(s.skip(e + p.len() as int), p);
        assert forall|k: int|
            0 <= k < split_sub(s, p).len() implies (#[trigger] split_sub(s, p)[k]).len()
            <= s.len() by {
            if k > 0 {
                assert(split_sub(s, p)[k] == split_sub(s.skip(e + p.len() as int), p)[k - 1]);
            }
        }
    }
}

/// Every line is at most as long as the text.
pub proof fn lemma_line_lens(s: Seq<char>)
    ensures
        forall|k: int|
            0 <= k < line_seqs(s).len() ==> (#[trigger] line_seqs(s)[k]).len() <= s.len(),
    decreases s.len(),
{
    if s.len() > 0 {
        lemma_find_pos(s, '\n');
        let e = find_pos(s, '\n');
        if e < s.len() {
            lemma_line_lens(s.skip(e + 1 as int));
            assert forall|k: int|
                0 <= k < line_seqs(s).len() implies (#[trigger] line_seqs(s)[k]).len()
                <= s.len() by {
                if k > 0 {
                    assert(line_seqs(s)[k] == line_seqs(s.skip(e + 1 as int))[k - 1]);
                }
            }
        }
    }
}

pub open spec fn is_digit(c: char) -> bool {
    48 <= c as u32 && c as u32 <= 57
}

pub open spec fn all_digits(s: Seq<char>) -> bool {
    forall|k: int| 0 <= k < s.len() ==> is_digit(#[trigger] s[k])
}

/// The value of `s` read as a decimal numeral.
pub open spec fn digits_val(s: Seq<char>) -> int
    decreases s.len(),
{
    if s.len() == 0 {
        0
    } else {
        digits_val(s.drop_last()) * 10 + (s.last() as u32 - 48)
    }
}

pub proof fn lemma_digits_val_nonneg(s: Seq<char>)
    requires
        all_digits(s),
    ensures
        digits_val(s) >= 0,
    decreases s.len(),
{
    if s.len() > 0 {
        assert(all_digits(s.drop_last()));
        lemma_digits_val_nonneg(s.drop_last());
    }
}

/// A longer digit prefix never has a smaller value.
pub proof fn lemma_digits_val_mono(s: Seq<char>, i: int, j: int)
    requires
        0 <= i <= j <= s.len(),
        all_digits(s),
    ensures
        digits_val(s.take(i)) <= digits_val(s.take(j)),
    decreases j - i,
{
    if i < j {
        lemma_digits_val_mono(s, i, j - 1);
        assert(all_digits(s.take(j - 1)));
        lemma_digits_val_nonneg(s.take(j - 1));
        assert(s.take(j).drop_last() =~= s.take(j - 1));
        assert(digits_val(s.take(j)) == digits_val(s.take(j - 1)) * 10 + (s[j - 1] as u32 - 48));
    }
}

/// Read `v` as a decimal `u64`; `None` when `v` is empty, holds a non-digit,
/// or names a value above `u64::MAX`.
pub fn parse_u64(v: &Vec<char>) -> (r: Option<u64>)
    ensures
        r is Some <==> v@.len() > 0 && all_digits(v@) && digits_val(v@) <= u64::MAX,
        r is Some ==> r->Some_0 == digits_val(v@),
{
    if v.len() == 0 {
        return None;
    }
    let mut cur: u64 = 0;
    let mut i: usize = 0;
    while i < v.len()
        invariant
            i <= v.len(),
            v@.len() > 0,
            forall|k: int| 0 <= k < i ==> is_digit(#[trigger] v@[k]),
            cur == digits_val(v@.take(i as int)),
        decreases v.len() - i,
    {
        let c = v[i];
        let u = c as u32;
        if u < 48 || u > 57 {
            assert(!is_digit(v@[i as int]));
            return None;
        }
        let d = (u - 48) as u64;
        proof {
            assert(all_digits(v@.take(i as int))) by {
                assert(forall|k: int|
                    0 <= k < i ==> #[trigger] v@.take(i as int)[k] == v@[k]);
            }
            lemma_digits_val_nonneg(v@.take(i as int));
        }
        if cur > (u64::MAX - d) / 10 {
            proof {
                assert(all_digits(v@.take(i + 1))) by {
                    assert(forall|k: int|
                        0 <= k < i + 1 ==> #[trigger] v@.take(i + 1)[k] == v@[k]);
                }
                assert(v@.take(i + 1).drop_last() =~= v@.take(i as int));
                        assert(digits_val(v@.take(i + 1)) == cur * 10 + d);
                assert(cur * 10 + d > u64::MAX) by {
                    assert(cur >= (u64::MAX - d) / 10 + 1);
                    assert(((u64::MAX - d) / 10 + 1) * 10 == ((u64::MAX - d) / 10) * 10 + 10);
                    assert(((u64::MAX - d) / 10) * 10 > u64::MAX - d - 10);
                }
                if all_digits(v@) {
                    lemma_digits_val_mono(v@, i + 1, v@.len() as int);
                    assert(v@.take(v@.len() as int) =~= v@);
                }
            }
            return None;
        }
        proof {
            assert(cur * 10 <= ((u64::MAX - d) / 10) * 10 <= u64::MAX - d);
            assert(v@.take(i + 1).drop_last() =~= v@.take(i as int));
        }
        cur = cur * 10 + d;
        i = i + 1;
    }
    proof {
        assert(v@.take(v@.len() as int) =~= v@);
    }
    Some(cur)
}

/// The value of `s` read as an optionally negated decimal numeral.
pub open spec fn int_val(s: Seq<char>) -> int {
    if s.len() > 0 && s[0] == '-' {
        -digits_val(s.drop_first())
    } else {
        digits_val(s)
    }
}

/// Whether `s` is a well-formed numeral: digits, optionally after a minus sign.
pub open spec fn is_numeral(s: Seq<char>) -> bool {
    if s.len() > 0 && s[0] == '-' {
        s.len() > 1 && all_digits(s.drop_first())
    } else {
        s.len() > 0 && all_digits(s)
    }
}

/// Read `v` as a decimal `i64`, with an optional leading minus sign.
pub fn parse_i64(v: &Vec<char>) -> (r: Option<i64>)
    ensures
        r is Some <==> is_numeral(v@) && i64::MIN <= int_val(v@) <= i64::MAX,
        r is Some ==> r->Some_0 == int_val(v@),
{
    if v.len() > 0 && v[0] == '-' {
        let rest = subvec(v, 1, v.len());
        proof {
            assert(rest@ =~= v@.drop_first());
        }
        match parse_u64(&rest) {
            Some(n) => {
                if n <= 9223372036854775808u64 {
                    proof {
                        assert(int_val(v@) == -(n as int));
                    }
                    if n == 9223372036854775808u64 {
                        Some(i64::MIN)
                    } else {
                        Some(-(n as i64))
                    }
                } else {
                    None
                }
            },
            None => {
                proof {
                    if is_numeral(v@) && i64::MIN <= int_val(v@) {
                        lemma_digits_val_nonneg(v@.drop_first());
                        assert(digits_val(v@.drop_first()) <= 9223372036854775808);
                    }
                }
                None
            },
        }
    } else {
        match parse_u64(v) {
            Some(n) => {
                if n <= i64::MAX as u64 {
                    Some(n as i64)
                } else {
                    None
                }
            },
            None => None,
        }
    }
}

/// The decimal digit character for `d`.
pub open spec fn dec_digit(d: int) -> char {
    if d == 0 {
        '0'
    } else if d == 1 {
        '1'
    } else if d == 2 {
        '2'
    } else if d == 3 {
        '3'
    } else if d == 4 {
        '4'
    } else if d == 5 {
        '5'
    } else if d == 6 {
        '6'
    } else if d == 7 {
        '7'
    } else if d == 8 {
        '8'
    } else {
        '9'
    }
}

/// The decimal numeral for a nonnegative `n`, with no leading zeros.
pub open spec fn dec_nat(n: int) -> Seq<char>
    decreases n,
{
    if n < 10 {
        seq![dec_digit(n)]
    } else {
        dec_nat(n / 10).push(dec_digit(n % 10))
    }
}

/// The decimal numeral for `n`, with a minus sign when `n` is negative.
pub open spec fn dec_int(n: int) -> Seq<char> {
    if n < 0 {
        seq!['-'] + dec_nat(-n)
    } else {
        dec_nat(n)
    }
}

fn push_digit(d: u64, out: &mut Vec<char>)
    requires
        d <= 9,
    ensures
        final(out)@ == old(out)@.push(dec_digit(d as int)),
{
    let c: char = if d == 0 {
        '0'
    } else if d == 1 {
        '1'
    } else if d == 2 {
        '2'
    } else if d == 3 {
        '3'
    } else if d == 4 {
        '4'
    } else if d == 5 {
        '5'
    } else if d == 6 {
        '6'
    } else if d == 7 {
        '7'
    } else if d == 8 {
        '8'
    } else {
        '9'
    };
    out.push(c);
}

fn push_dec(n: u64, out: &mut Vec<char>)
    ensures
        final(out)@ == old(out)@ + dec_nat(n as int),
    decreases n,
{
    if n < 10 {
        push_digit(n, out);
        proof {
            assert(old(out)@ + dec_nat(n as int) =~= old(out)@.push(dec_digit(n as int)));
        }
    } else {
        push_dec(n / 10, out);
        push_digit(n % 10, out);
        proof {
            assert(old(out)@ + dec_nat(n as int) =~= (old(out)@ + dec_nat(n as int / 10)).push(
                dec_digit(n as int % 10),
            ));
        }
    }
}

/// The decimal numeral for `n`, as a `String`.
pub fn u64_string(n: u64) -> (s: String)
    ensures
        s@ == dec_nat(n as int),
{
    let mut out: Vec<char> = Vec::new();
    push_dec(n, &mut out);
    proof {
        assert(out@ =~= dec_nat(n as int));
    }
    chars_to_string(&out)
}

/// The decimal numeral for `n`, as a `String`, with a minus sign when negative.
pub fn i64_string(n: i64) -> (s: String)
    ensures
        s@ == dec_int(n as int),
{
    let mut out: Vec<char> = Vec::new();
    if n < 0 {
        out.push('-');
        let mag: u64 = (-(n as i128)) as u64;
        push_dec(mag, &mut out);
        proof {
            assert(out@ =~= dec_int(n as int));
        }
    } else {
        push_dec(n as u64, &mut out);
        proof {
            assert(out@ =~= dec_int(n as int));
        }
    }
    chars_to_string(&out)
}

/// The decimal numeral for `n`, as a `String`.
pub fn usize_string(n: usize) -> (s: String)
    ensures
        s@ == dec_nat(n as int),
{
    u64_string(n as u64)
}

} // verus!
