use crate::sorting::{ascending, lemma_ascending, sort_u64};
use crate::text::{all_digits, chars_of, dec_nat, digits_val, has_prefix, lemma_deep_view_chars};
use crate::text::{line_seqs, parse_u64, split_by_char, split_by_sub, split_char, split_lines};
use crate::text::{split_sub, subvec, u64_string};
use vstd::prelude::*;

verus! {

/// How a monkey changes an item's worry level.
#[derive(Debug, PartialEq, Clone)]
pub enum OperationType {
    Multiplication,
    Addition,
}

/// Where a monkey throws: the divisor it tests with, and the targets for
/// either outcome.
#[derive(Debug, Clone)]
pub struct MonkeyTest {
    pub divisible_by: u64,
    pub true_monkey: usize,
    pub false_monkey: usize,
}

/// One monkey: its index, held items, operation, test, and how many items
/// it has inspected.
#[derive(Debug, Clone)]
pub struct Monkey {
    pub idx: usize,
    pub items: Vec<u64>,
    pub operation_type: Option<OperationType>,
    pub operation_number: Option<u64>,
    pub test: MonkeyTest,
    pub inspections: u64,
}

pub type Jungle = Vec<Monkey>;

/// The abstract state of one monkey.
pub struct MonkeyV {
    pub idx: int,
    pub items: Seq<u64>,
    pub op: Option<OperationType>,
    pub op_num: Option<u64>,
    pub div: u64,
    pub tm: int,
    pub fm: int,
    pub inspections: int,
}

pub open spec fn mview(m: Monkey) -> MonkeyV {
    MonkeyV {
        idx: m.idx as int,
        items: m.items@,
        op: m.operation_type,
        op_num: m.operation_number,
        div: m.test.divisible_by,
        tm: m.test.true_monkey as int,
        fm: m.test.false_monkey as int,
        inspections: m.inspections as int,
    }
}

pub open spec fn jview(ms: Seq<Monkey>) -> Seq<MonkeyV> {
    ms.map_values(|m: Monkey| mview(m))
}

pub open spec fn fresh_monkey(idx: int) -> MonkeyV {
    MonkeyV {
        idx: idx,
        items: Seq::empty(),
        op: None,
        op_num: None,
        div: 0,
        tm: 0,
        fm: 0,
        inspections: 0,
    }
}

impl Default for MonkeyTest {
    /// The all-zero test.
    fn default() -> (r: MonkeyTest)
        ensures
            r.divisible_by == 0 && r.true_monkey == 0 && r.false_monkey == 0,
    {
        MonkeyTest { divisible_by: 0, true_monkey: 0, false_monkey: 0 }
    }
}

impl Default for Monkey {
    /// A monkey with no items, no operation, and the all-zero test.
    fn default() -> (r: Monkey)
        ensures
            mview(r) == fresh_monkey(0),
    {
        let r = Monkey {
            idx: 0,
            items: Vec::new(),
            operation_type: None,
            operation_number: None,
            test: MonkeyTest::default(),
            inspections: 0,
        };
        proof {
            assert(r.items@ =~= Seq::<u64>::empty());
        }
        r
    }
}

pub open spec fn monkey_pat() -> Seq<char> {
    seq!['M', 'o', 'n', 'k', 'e', 'y']
}

pub open spec fn items_pat() -> Seq<char> {
    seq![' ', ' ', 'S', 't', 'a', 'r', 't', 'i', 'n', 'g', ' ', 'i', 't', 'e', 'm', 's', ':']
}

pub open spec fn op_pat() -> Seq<char> {
    seq![' ', ' ', 'O', 'p', 'e', 'r', 'a', 't', 'i', 'o', 'n', ':']
}

pub open spec fn test_pat() -> Seq<char> {
    seq![' ', ' ', 'T', 'e', 's', 't', ':']
}

pub open spec fn true_pat() -> Seq<char> {
    seq![' ', ' ', ' ', ' ', 'I', 'f', ' ', 't', 'r', 'u', 'e', ':']
}

pub open spec fn false_pat() -> Seq<char> {
    seq![' ', ' ', ' ', ' ', 'I', 'f', ' ', 'f', 'a', 'l', 's', 'e', ':']
}

pub open spec fn colon_sep() -> Seq<char> {
    seq![':', ' ']
}

pub open spec fn comma_sep() -> Seq<char> {
    seq![',', ' ']
}

pub open spec fn old_sep() -> Seq<char> {
    seq![':', ' ', 'n', 'e', 'w', ' ', '=', ' ', 'o', 'l', 'd', ' ']
}

/// Whether every piece is a numeral that fits `u64`.
pub open spec fn items_ok(pieces: Seq<Seq<char>>) -> bool {
    forall|k: int|
        0 <= k < pieces.len() ==> (#[trigger] pieces[k]).len() > 0 && all_digits(pieces[k])
            && digits_val(pieces[k]) <= u64::MAX
}

pub open spec fn parsed_items(pieces: Seq<Seq<char>>) -> Seq<u64> {
    pieces.map_values(|p: Seq<char>| digits_val(p) as u64)
}

/// The last monkey updated by `f`.
pub open spec fn update_last(ms: Seq<MonkeyV>, m: MonkeyV) -> Seq<MonkeyV> {
    ms.update(ms.len() - 1, m)
}

/// One notes line applied to the monkeys read so far.
pub open spec fn parse_line(ms: Seq<MonkeyV>, l: Seq<char>) -> Option<Seq<MonkeyV>> {
    if monkey_pat().is_prefix_of(l) {
        Some(ms.push(fresh_monkey(ms.len() as int)))
    } else if items_pat().is_prefix_of(l) {
        if ms.len() == 0 {
            None
        } else {
            let parts = split_sub(l, colon_sep());
            if parts.len() < 2 {
                None
            } else {
                let pieces = split_sub(parts[1], comma_sep());
                if items_ok(pieces) {
                    Some(update_last(ms, MonkeyV { items: parsed_items(pieces), ..ms.last() }))
                } else {
                    None
                }
            }
        }
    } else if op_pat().is_prefix_of(l) {
        let parts = split_sub(l, old_sep());
        if parts.len() < 2 || ms.len() == 0 {
            None
        } else if parts[1].len() == 0 {
            None
        } else {
            let sym = parts[1][0];
            if sym != '*' && sym != '+' {
                None
            } else {
                let op = if sym == '*' {
                    OperationType::Multiplication
                } else {
                    OperationType::Addition
                };
                let toks = split_char(l, ' ');
                let lastw = toks.last();
                let num: Option<u64> = if lastw.len() > 0 && all_digits(lastw) && digits_val(
                    lastw,
                ) <= u64::MAX {
                    Some(digits_val(lastw) as u64)
                } else {
                    None
                };
                Some(update_last(ms, MonkeyV { op: Some(op), op_num: num, ..ms.last() }))
            }
        }
    } else if test_pat().is_prefix_of(l) {
        let toks = split_char(l, ' ');
        let lastw = toks.last();
        if ms.len() == 0 || !(lastw.len() > 0 && all_digits(lastw) && digits_val(lastw)
            <= u64::MAX) {
            None
        } else {
            Some(update_last(ms, MonkeyV { div: digits_val(lastw) as u64, ..ms.last() }))
        }
    } else if true_pat().is_prefix_of(l) {
        let toks = split_char(l, ' ');
        let lastw = toks.last();
        if ms.len() == 0 || !(lastw.len() > 0 && all_digits(lastw) && digits_val(lastw)
            <= usize::MAX) {
            None
        } else {
            Some(update_last(ms, MonkeyV { tm: digits_val(lastw), ..ms.last() }))
        }
    } else if false_pat().is_prefix_of(l) {
        let toks = split_char(l, ' ');
        let lastw = toks.last();
        if ms.len() == 0 || !(lastw.len() > 0 && all_digits(lastw) && digits_val(lastw)
            <= usize::MAX) {
            None
        } else {
            Some(update_last(ms, MonkeyV { fm: digits_val(lastw), ..ms.last() }))
        }
    } else {
        Some(ms)
    }
}

/// The monkeys read from the lines from `j` on.
pub open spec fn parse_from(ls: Seq<Seq<char>>, j: int, ms: Seq<MonkeyV>) -> Option<Seq<MonkeyV>>
    decreases ls.len() - j,
{
    if j < 0 || j >= ls.len() {
        Some(ms)
    } else {
        match parse_line(ms, ls[j]) {
            Some(ms2) => parse_from(ls, j + 1, ms2),
            None => None,
        }
    }
}

/// The monkeys described by `s`.
pub open spec fn day11_monkeys(s: Seq<char>) -> Option<Seq<MonkeyV>> {
    parse_from(line_seqs(s), 0, Seq::empty())
}

/// Parse a comma-separated item list; `None` exactly when a piece is not a
/// numeral that fits `u64`.
fn parse_item_list(pieces: &Vec<Vec<char>>) -> (r: Option<Vec<u64>>)
    ensures
        r is Some <==> items_ok(pieces.deep_view()),
        r is Some ==> r->Some_0@ == parsed_items(pieces.deep_view()),
{
    proof {
        lemma_deep_view_chars(pieces);
    }
    let ghost pd = pieces.deep_view();
    let mut items: Vec<u64> = Vec::new();
    let mut k: usize = 0;
    while k < pieces.len()
        invariant
            k <= pieces@.len(),
            pd == pieces.deep_view(),
            pieces@.len() == pd.len(),
            forall|i: int| 0 <= i < pieces@.len() ==> #[trigger] pieces@[i]@ == pd[i],
            forall|i: int|
                0 <= i < k ==> (#[trigger] pd[i]).len() > 0 && all_digits(pd[i]) && digits_val(
                    pd[i],
                ) <= u64::MAX,
            items@.len() == k,
            forall|i: int| 0 <= i < k ==> items@[i] == digits_val(#[trigger] pd[i]),
        decreases pieces.len() - k,
    {
        match parse_u64(&pieces[k]) {
            Some(n) => {
                items.push(n);
            },
            None => {
                proof {
                    assert(!items_ok(pd));
                }
                return None;
            },
        }
        k = k + 1;
    }
    proof {
        assert(items_ok(pd));
        assert(items@ =~= parsed_items(pd));
    }
    Some(items)
}

/// Read the monkey notes; `None` exactly when a line that needs one has no
/// monkey yet, or a number in it is missing or out of range.
#[verifier::rlimit(100)]
pub fn parser(input: &str) -> (r: Option<Jungle>)
    ensures
        r is Some <==> day11_monkeys(input@) is Some,
        r is Some ==> jview(r->Some_0@) == day11_monkeys(input@)->Some_0,
{
    let chars = chars_of(input);
    let lines = split_lines(&chars);
    let ghost ld = line_seqs(input@);
    proof {
        lemma_deep_view_chars(&lines);
        reveal_strlit("Monkey");
        reveal_strlit("  Starting items:");
        reveal_strlit("  Operation:");
        reveal_strlit("  Test:");
        reveal_strlit("    If true:");
        reveal_strlit("    If false:");
        reveal_strlit(": ");
        reveal_strlit(", ");
        reveal_strlit(": new = old ");
    }
    let p_monkey = chars_of("Monkey");
    let p_items = chars_of("  Starting items:");
    let p_op = chars_of("  Operation:");
    let p_test = chars_of("  Test:");
    let p_true = chars_of("    If true:");
    let p_false = chars_of("    If false:");
    let p_colon = chars_of(": ");
    let p_comma = chars_of(", ");
    let p_old = chars_of(": new = old ");
    proof {
        assert(p_monkey@ =~= monkey_pat());
        assert(p_items@ =~= items_pat());
        assert(p_op@ =~= op_pat());
        assert(p_test@ =~= test_pat());
        assert(p_true@ =~= true_pat());
        assert(p_false@ =~= false_pat());
        assert(p_colon@ =~= colon_sep());
        assert(p_comma@ =~= comma_sep());
        assert(p_old@ =~= old_sep());
    }
    let mut monkeys: Jungle = Vec::new();
    let mut j: usize = 0;
    proof {
        assert(jview(monkeys@) =~= Seq::<MonkeyV>::empty());
    }
    while j < lines.len()
        invariant
            j <= lines@.len(),
            ld == line_seqs(input@),
            lines@.len() == ld.len(),
            forall|i: int| 0 <= i < lines@.len() ==> #[trigger] lines@[i]@ == ld[i],
            p_monkey@ == monkey_pat(),
            p_items@ == items_pat(),
            p_op@ == op_pat(),
            p_test@ == test_pat(),
            p_true@ == true_pat(),
            p_false@ == false_pat(),
            p_colon@ == colon_sep(),
            p_comma@ == comma_sep(),
            p_old@ == old_sep(),
            day11_monkeys(input@) == parse_from(ld, j as int, jview(monkeys@)),
        decreases lines.len() - j,
    {
        let ghost pre = jview(monkeys@);
        let line = &lines[j];
        if has_prefix(line, &p_monkey) {
            let mut m = Monkey::default();
            m.idx = monkeys.len();
            monkeys.push(m);
            proof {
                assert(jview(monkeys@) =~~= pre.push(fresh_monkey(pre.len() as int)));
            }
        } else if has_prefix(line, &p_items) {
            if monkeys.len() == 0 {
                proof {
                    assert(parse_line(pre, ld[j as int]) is None);
                    assert(parse_from(ld, j as int, pre) is None);
                }
                return None;
            }
            let parts = split_by_sub(line, &p_colon);
            proof {
                lemma_deep_view_chars(&parts);
            }
            if parts.len() < 2 {
                proof {
                    assert(parse_line(pre, ld[j as int]) is None);
                    assert(parse_from(ld, j as int, pre) is None);
                }
                return None;
            }
            let pieces = split_by_sub(&parts[1], &p_comma);
            proof {
                lemma_deep_view_chars(&pieces);
            }
            let ghost pd = split_sub(split_sub(ld[j as int], colon_sep())[1], comma_sep());
            let items = match parse_item_list(&pieces) {
                Some(v) => v,
                None => {
                    proof {
                        assert(parse_line(pre, ld[j as int]) is None);
                        assert(parse_from(ld, j as int, pre) is None);
                    }
                    return None;
                },
            };
            let li = monkeys.len() - 1;
            monkeys[li].items = items;
            proof {
                assert(jview(monkeys@) =~~= update_last(
                    pre,
                    MonkeyV { items: parsed_items(pd), ..pre.last() },
                ));
            }
        } else if has_prefix(line, &p_op) {
            let parts = split_by_sub(line, &p_old);
            proof {
                lemma_deep_view_chars(&parts);
            }
            if parts.len() < 2 || monkeys.len() == 0 {
                proof {
                    assert(parse_line(pre, ld[j as int]) is None);
                    assert(parse_from(ld, j as int, pre) is None);
                }
                return None;
            }
            if parts[1].len() == 0 {
                proof {
                    assert(parse_line(pre, ld[j as int]) is None);
                    assert(parse_from(ld, j as int, pre) is None);
                }
                return None;
            }
            let sym = parts[1][0];
            if sym != '*' && sym != '+' {
                proof {
                    assert(parse_line(pre, ld[j as int]) is None);
                    assert(parse_from(ld, j as int, pre) is None);
                }
                return None;
            }
            let op = if sym == '*' {
                OperationType::Multiplication
            } else {
                OperationType::Addition
            };
            let toks = split_by_char(line, ' ');
            proof {
                lemma_deep_view_chars(&toks);
                crate::text::lemma_split_char_len(ld[j as int], ' ');
                assert(toks@.len() >= 1);
                assert(toks@[toks@.len() - 1]@ == split_char(ld[j as int], ' ').last());
            }
            let lastw = &toks[toks.len() - 1];
            let num: Option<u64> = parse_u64(lastw);
            let li = monkeys.len() - 1;
            monkeys[li].operation_type = Some(op);
            monkeys[li].operation_number = num;
            proof {
                let lw = split_char(ld[j as int], ' ').last();
                let specnum: Option<u64> = if lw.len() > 0 && all_digits(lw) && digits_val(lw)
                    <= u64::MAX {
                    Some(digits_val(lw) as u64)
                } else {
                    None
                };
                assert(num == specnum);
                let symc = split_sub(ld[j as int], old_sep())[1][0];
                let specop = if symc == '*' {
                    OperationType::Multiplication
                } else {
                    OperationType::Addition
                };
                assert(jview(monkeys@) =~~= update_last(
                    pre,
                    MonkeyV { op: Some(specop), op_num: specnum, ..pre.last() },
                ));
            }
        } else if has_prefix(line, &p_test) {
            let toks = split_by_char(line, ' ');
            proof {
                lemma_deep_view_chars(&toks);
                crate::text::lemma_split_char_len(ld[j as int], ' ');
                assert(toks@[toks@.len() - 1]@ == split_char(ld[j as int], ' ').last());
            }
            let lastw = &toks[toks.len() - 1];
            let n = match parse_u64(lastw) {
                Some(n) => n,
                None => {
                    proof {
                        assert(parse_line(pre, ld[j as int]) is None);
                        assert(parse_from(ld, j as int, pre) is None);
                    }
                    return None;
                },
            };
            if monkeys.len() == 0 {
                proof {
                    assert(parse_line(pre, ld[j as int]) is None);
                    assert(parse_from(ld, j as int, pre) is None);
                }
                return None;
            }
            let li = monkeys.len() - 1;
            monkeys[li].test.divisible_by = n;
            proof {
                let lw = split_char(ld[j as int], ' ').last();
                assert(jview(monkeys@) =~~= update_last(
                    pre,
                    MonkeyV { div: digits_val(lw) as u64, ..pre.last() },
                ));
            }
        } else if has_prefix(line, &p_true) {
            let toks = split_by_char(line, ' ');
            proof {
                lemma_deep_view_chars(&toks);
                crate::text::lemma_split_char_len(ld[j as int], ' ');
                assert(toks@[toks@.len() - 1]@ == split_char(ld[j as int], ' ').last());
            }
            let lastw = &toks[toks.len() - 1];
            let n = match parse_u64(lastw) {
                Some(n) => n,
                None => {
                    proof {
                        assert(parse_line(pre, ld[j as int]) is None);
                        assert(parse_from(ld, j as int, pre) is None);
                    }
                    return None;
                },
            };
            if n > usize::MAX as u64 || monkeys.len() == 0 {
                proof {
                    assert(parse_line(pre, ld[j as int]) is None);
                    assert(parse_from(ld, j as int, pre) is None);
                }
                return None;
            }
            let li = monkeys.len() - 1;
            monkeys[li].test.true_monkey = n as usize;
            proof {
                let lw = split_char(ld[j as int], ' ').last();
                assert(jview(monkeys@) =~~= update_last(
                    pre,
                    MonkeyV { tm: digits_val(lw), ..pre.last() },
                ));
            }
        } else if has_prefix(line, &p_false) {
            let toks = split_by_char(line, ' ');
            proof {
                lemma_deep_view_chars(&toks);
                crate::text::lemma_split_char_len(ld[j as int], ' ');
                assert(toks@[toks@.len() - 1]@ == split_char(ld[j as int], ' ').last());
            }
            let lastw = &toks[toks.len() - 1];
            let n = match parse_u64(lastw) {
                Some(n) => n,
                None => {
                    proof {
                        assert(parse_line(pre, ld[j as int]) is None);
                        assert(parse_from(ld, j as int, pre) is None);
                    }
                    return None;
                },
            };
            if n > usize::MAX as u64 || monkeys.len() == 0 {
                proof {
                    assert(parse_line(pre, ld[j as int]) is None);
                    assert(parse_from(ld, j as int, pre) is None);
                }
                return None;
            }
            let li = monkeys.len() - 1;
            monkeys[li].test.false_monkey = n as usize;
            proof {
                let lw = split_char(ld[j as int], ' ').last();
                assert(jview(monkeys@) =~~= update_last(
                    pre,
                    MonkeyV { fm: digits_val(lw), ..pre.last() },
                ));
            }
        }
        proof {
            assert(parse_line(pre, ld[j as int]) == Some(jview(monkeys@)));
        }
        j = j + 1;
    }
    Some(monkeys)
}

/// How worry is relieved after an inspection: divided by a coefficient, or
/// reduced modulo a common multiple.
#[derive(Clone, Copy)]
pub enum Relief {
    Coefficient(u64),
    Modulo(u64),
}

pub open spec fn relief_ok(r: Relief) -> bool {
    match r {
        Relief::Coefficient(c) => c > 0,
        Relief::Modulo(m) => m > 0,
    }
}

/// The worry level after relief.
pub open spec fn relieve(r: Relief, x: int) -> int {
    match r {
        Relief::Coefficient(c) => x / c as int,
        Relief::Modulo(m) => x % m as int,
    }
}

/// The worry level of the first item after the monkey's operation: multiply
/// or add its number, or the item itself when it has none.
pub open spec fn raw_worry(m: MonkeyV) -> int {
    let item = m.items[0] as int;
    match m.op {
        Some(OperationType::Multiplication) => match m.op_num {
            Some(n) => n * item,
            None => item * item,
        },
        Some(OperationType::Addition) => match m.op_num {
            Some(n) => n + item,
            None => item + item,
        },
        None => 0,
    }
}

/// What one inspection needs of the machine's bounds.
pub open spec fn inspect_ok(m: MonkeyV, r: Relief) -> bool {
    &&& m.op is Some
    &&& m.div > 0
    &&& relief_ok(r)
    &&& m.inspections + 1 <= u64::MAX
    &&& (m.items.len() > 0 ==> 0 <= raw_worry(m) <= u64::MAX)
}

/// Where the first item goes after inspection.
pub open spec fn throw_target(m: MonkeyV, r: Relief) -> int {
    if relieve(r, raw_worry(m)) % m.div as int == 0 {
        m.tm
    } else {
        m.fm
    }
}

/// The monkey after inspecting and throwing its first item.
pub open spec fn after_inspect(m: MonkeyV) -> MonkeyV {
    MonkeyV { items: m.items.drop_first(), inspections: m.inspections + 1, ..m }
}

impl Monkey {
    /// Inspect and throw this monkey's first item: apply the operation,
    /// relieve the worry, and pick the target by divisibility. `Err(true)`
    /// when the monkey holds nothing.
    pub fn inspect_and_throw(&mut self, relief: Relief) -> (r: Result<(u64, usize), bool>)
        requires
            inspect_ok(mview(*old(self)), relief),
        ensures
            old(self).items@.len() == 0 ==> r == Result::<(u64, usize), bool>::Err(true)
                && mview(*final(self)) == mview(*old(self)) && final(self).items@.len() == 0,
            old(self).items@.len() > 0 ==> {
                let m = mview(*old(self));
                &&& r == Result::<(u64, usize), bool>::Ok(
                    (
                        relieve(relief, raw_worry(m)) as u64,
                        throw_target(m, relief) as usize,
                    ),
                )
                &&& mview(*final(self)) == after_inspect(m)
            },
    {
        if self.items.len() == 0 {
            return Err(true);
        }
        let ghost m = mview(*self);
        let item = self.items.remove(0);
        proof {
            assert(self.items@ =~= m.items.drop_first());
            assert(item == m.items[0]);
        }
        let worried: u64 = match &self.operation_type {
            Some(OperationType::Multiplication) => match self.operation_number {
                Some(n) => n * item,
                None => item * item,
            },
            Some(OperationType::Addition) => match self.operation_number {
                Some(n) => n + item,
                None => item + item,
            },
            None => {
                proof {
                    assert(false);
                }
                0
            },
        };
        proof {
            assert(worried == raw_worry(m));
        }
        let relieved: u64 = match relief {
            Relief::Coefficient(c) => worried / c,
            Relief::Modulo(md) => worried % md,
        };
        proof {
            assert(relieved == relieve(relief, raw_worry(m)));
        }
        let throw_to = if relieved % self.test.divisible_by == 0 {
            self.test.true_monkey
        } else {
            self.test.false_monkey
        };
        self.inspections = self.inspections + 1;
        proof {
            assert(mview(*self) == after_inspect(m));
        }
        Ok((relieved, throw_to))
    }
}

/// Whether the monkeys form a playable game: at least one monkey, each with
/// an operation, a positive divisor, and throw targets that name another
/// monkey of the game.
pub open spec fn game_wf(ms: Seq<MonkeyV>) -> bool {
    &&& ms.len() > 0
    &&& forall|i: int|
        0 <= i < ms.len() ==> {
            let m = #[trigger] ms[i];
            &&& m.op is Some
            &&& m.div > 0
            &&& 0 <= m.tm < ms.len() && m.tm != i
            &&& 0 <= m.fm < ms.len() && m.fm != i
            &&& 0 <= m.inspections
        }
}

/// One monkey's whole turn: it inspects and throws until its hands are
/// empty.
pub open spec fn turn_from(ms: Seq<MonkeyV>, idx: int, r: Relief) -> Seq<MonkeyV>
    decreases (if 0 <= idx < ms.len() {
        ms[idx].items.len()
    } else {
        0
    }),
{
    if !(0 <= idx < ms.len()) {
        ms
    } else if ms[idx].items.len() == 0 {
        ms
    } else {
        let m = ms[idx];
        let tgt = throw_target(m, r);
        if !(0 <= tgt < ms.len()) || tgt == idx {
            ms
        } else {
            let item = relieve(r, raw_worry(m)) as u64;
            let ms2 = ms.update(idx, after_inspect(m)).update(
                tgt,
                MonkeyV { items: ms[tgt].items.push(item), ..ms[tgt] },
            );
            turn_from(ms2, idx, r)
        }
    }
}

/// What a whole turn needs of the machine's bounds.
pub open spec fn turn_ok(ms: Seq<MonkeyV>, idx: int, r: Relief) -> bool
    decreases (if 0 <= idx < ms.len() {
        ms[idx].items.len()
    } else {
        0
    }),
{
    if !(0 <= idx < ms.len()) {
        true
    } else if ms[idx].items.len() == 0 {
        inspect_ok(ms[idx], r)
    } else {
        let m = ms[idx];
        let tgt = throw_target(m, r);
        inspect_ok(m, r) && ((0 <= tgt < ms.len()) && tgt != idx ==> turn_from(ms, idx, r)
            == turn_from(
            ms.update(idx, after_inspect(m)).update(
                tgt,
                MonkeyV {
                    items: ms[tgt].items.push(relieve(r, raw_worry(m)) as u64),
                    ..ms[tgt]
                },
            ),
            idx,
            r,
        ) && turn_ok(
            ms.update(idx, after_inspect(m)).update(
                tgt,
                MonkeyV {
                    items: ms[tgt].items.push(relieve(r, raw_worry(m)) as u64),
                    ..ms[tgt]
                },
            ),
            idx,
            r,
        ))
    }
}

/// The game after turns `t` to `total`, monkeys taking turns in order.
pub open spec fn play_from(ms: Seq<MonkeyV>, t: int, total: int, r: Relief) -> Seq<MonkeyV>
    decreases total - t,
{
    if t < 0 || t >= total || ms.len() == 0 {
        ms
    } else {
        play_from(turn_from(ms, t % ms.len() as int, r), t + 1, total, r)
    }
}

/// What the whole game needs of the machine's bounds.
pub open spec fn play_ok(ms: Seq<MonkeyV>, t: int, total: int, r: Relief) -> bool
    decreases total - t,
{
    if t < 0 || t >= total || ms.len() == 0 {
        true
    } else {
        turn_ok(ms, t % ms.len() as int, r) && play_ok(
            turn_from(ms, t % ms.len() as int, r),
            t + 1,
            total,
            r,
        )
    }
}

proof fn lemma_turn_keeps(ms: Seq<MonkeyV>, idx: int, r: Relief)
    ensures
        turn_from(ms, idx, r).len() == ms.len(),
        game_wf(ms) ==> game_wf(turn_from(ms, idx, r)),
    decreases (if 0 <= idx < ms.len() {
        ms[idx].items.len()
    } else {
        0
    }),
{
    if 0 <= idx < ms.len() && ms[idx].items.len() > 0 {
        let m = ms[idx];
        let tgt = throw_target(m, r);
        if 0 <= tgt < ms.len() && tgt != idx {
            let item = relieve(r, raw_worry(m)) as u64;
            let ms2 = ms.update(idx, after_inspect(m)).update(
                tgt,
                MonkeyV { items: ms[tgt].items.push(item), ..ms[tgt] },
            );
            lemma_turn_keeps(ms2, idx, r);
            assert(game_wf(ms) ==> game_wf(ms2)) by {
                if game_wf(ms) {
                    assert forall|i: int| 0 <= i < ms2.len() implies {
                        let mm = #[trigger] ms2[i];
                        &&& mm.op is Some
                        &&& mm.div > 0
                        &&& 0 <= mm.tm < ms2.len() && mm.tm != i
                        &&& 0 <= mm.fm < ms2.len() && mm.fm != i
                        &&& 0 <= mm.inspections
                    } by {
                        assert(ms[i].op is Some);
                    }
                }
            }
        }
    }
}

/// The game: its monkeys.
pub struct KeepAwayGame {
    pub monkeys: Jungle,
}

impl KeepAwayGame {
    /// Play `rounds` rounds: each monkey in order takes one whole turn per
    /// round.
    pub fn start(&mut self, rounds: usize, relief: Relief)
        requires
            game_wf(jview(old(self).monkeys@)),
            relief_ok(relief),
            rounds * old(self).monkeys@.len() <= usize::MAX,
            play_ok(
                jview(old(self).monkeys@),
                0,
                (rounds * old(self).monkeys@.len()) as int,
                relief,
            ),
        ensures
            jview(final(self).monkeys@) == play_from(
                jview(old(self).monkeys@),
                0,
                (rounds * old(self).monkeys@.len()) as int,
                relief,
            ),
            game_wf(jview(final(self).monkeys@)),
            final(self).monkeys@.len() == old(self).monkeys@.len(),
    {
        let ghost ms0 = jview(self.monkeys@);
        let num_monkeys = self.monkeys.len();
        let turns = rounds * num_monkeys;
        let mut turn: usize = 0;
        while turn < turns
            invariant
                turn <= turns,
                num_monkeys == self.monkeys@.len(),
                num_monkeys > 0,
                jview(self.monkeys@).len() == num_monkeys,
                relief_ok(relief),
                game_wf(jview(self.monkeys@)),
                play_from(ms0, 0, turns as int, relief) == play_from(
                    jview(self.monkeys@),
                    turn as int,
                    turns as int,
                    relief,
                ),
                play_ok(jview(self.monkeys@), turn as int, turns as int, relief),
            decreases turns - turn,
        {
            let mi = turn % num_monkeys;
            let ghost pre_turn = jview(self.monkeys@);
            proof {
                assert(turn_ok(pre_turn, mi as int, relief));
                assert(play_ok(
                    turn_from(pre_turn, mi as int, relief),
                    turn + 1,
                    turns as int,
                    relief,
                ));
            }
            let mut done = false;
            while !done
                invariant
                    mi < self.monkeys@.len(),
                    self.monkeys@.len() == num_monkeys,
                    jview(self.monkeys@).len() == num_monkeys,
                    relief_ok(relief),
                    game_wf(jview(self.monkeys@)),
                    turn_from(pre_turn, mi as int, relief) == turn_from(
                        jview(self.monkeys@),
                        mi as int,
                        relief,
                    ),
                    turn_ok(jview(self.monkeys@), mi as int, relief),
                    done ==> jview(self.monkeys@) == turn_from(pre_turn, mi as int, relief),
                decreases jview(self.monkeys@)[mi as int].items.len(), (if done {
                    0int
                } else {
                    1int
                }),
            {
                let ghost cur = jview(self.monkeys@);
                proof {
                    assert(inspect_ok(cur[mi as int], relief));
                    assert(mview(self.monkeys@[mi as int]) == cur[mi as int]);
                }
                let res = self.monkeys[mi].inspect_and_throw(relief);
                match res {
                    Ok((item, throw_to_idx)) => {
                        proof {
                            assert(cur[mi as int].items.len() > 0);
                            assert(jview(self.monkeys@) =~~= cur.update(
                                mi as int,
                                after_inspect(cur[mi as int]),
                            ));
                            assert(throw_to_idx == throw_target(cur[mi as int], relief));
                            assert(throw_to_idx < num_monkeys && throw_to_idx != mi);
                        }
                        let ghost mid = jview(self.monkeys@);
                        self.monkeys[throw_to_idx].items.push(item);
                        proof {
                            assert(jview(self.monkeys@) =~~= mid.update(
                                throw_to_idx as int,
                                MonkeyV {
                                    items: mid[throw_to_idx as int].items.push(item),
                                    ..mid[throw_to_idx as int]
                                },
                            ));
                            assert(jview(self.monkeys@) =~~= cur.update(
                                mi as int,
                                after_inspect(cur[mi as int]),
                            ).update(
                                throw_to_idx as int,
                                MonkeyV {
                                    items: cur[throw_to_idx as int].items.push(item),
                                    ..cur[throw_to_idx as int]
                                },
                            ));
                            assert(turn_from(cur, mi as int, relief) == turn_from(
                                jview(self.monkeys@),
                                mi as int,
                                relief,
                            ));
                            assert(game_wf(jview(self.monkeys@))) by {
                                assert forall|i: int|
                                    0 <= i < jview(self.monkeys@).len() implies {
                                    let mm = #[trigger] jview(self.monkeys@)[i];
                                    &&& mm.op is Some
                                    &&& mm.div > 0
                                    &&& 0 <= mm.tm < jview(self.monkeys@).len() && mm.tm != i
                                    &&& 0 <= mm.fm < jview(self.monkeys@).len() && mm.fm != i
                                    &&& 0 <= mm.inspections
                                } by {
                                    assert(cur[i].op is Some);
                                }
                            }
                        }
                    },
                    Err(_) => {
                        proof {
                            assert(cur[mi as int].items.len() == 0);
                            assert(jview(self.monkeys@) =~~= cur);
                            assert(turn_from(cur, mi as int, relief) == cur);
                        }
                        done = true;
                    },
                }
            }
            proof {
                assert(play_from(pre_turn, turn as int, turns as int, relief) == play_from(
                    jview(self.monkeys@),
                    turn + 1,
                    turns as int,
                    relief,
                ));
            }
            turn = turn + 1;
        }
    }

    /// Play `rounds` rounds with worry divided by three after each
    /// inspection.
    pub fn start_with_relief_coefficient(&mut self, rounds: usize)
        requires
            game_wf(jview(old(self).monkeys@)),
            rounds * old(self).monkeys@.len() <= usize::MAX,
            play_ok(
                jview(old(self).monkeys@),
                0,
                (rounds * old(self).monkeys@.len()) as int,
                Relief::Coefficient(3),
            ),
        ensures
            jview(final(self).monkeys@) == play_from(
                jview(old(self).monkeys@),
                0,
                (rounds * old(self).monkeys@.len()) as int,
                Relief::Coefficient(3),
            ),
            game_wf(jview(final(self).monkeys@)),
            final(self).monkeys@.len() == old(self).monkeys@.len(),
    {
        self.start(rounds, Relief::Coefficient(3))
    }

    /// Play `rounds` rounds with worry reduced modulo the product of every
    /// monkey's divisor.
    pub fn start_without_relief_coefficient(&mut self, rounds: usize)
        requires
            game_wf(jview(old(self).monkeys@)),
            rounds * old(self).monkeys@.len() <= usize::MAX,
            div_product(jview(old(self).monkeys@), 0) <= u64::MAX,
            play_ok(
                jview(old(self).monkeys@),
                0,
                (rounds * old(self).monkeys@.len()) as int,
                Relief::Modulo(div_product(jview(old(self).monkeys@), 0) as u64),
            ),
        ensures
            jview(final(self).monkeys@) == play_from(
                jview(old(self).monkeys@),
                0,
                (rounds * old(self).monkeys@.len()) as int,
                Relief::Modulo(div_product(jview(old(self).monkeys@), 0) as u64),
            ),
            game_wf(jview(final(self).monkeys@)),
            final(self).monkeys@.len() == old(self).monkeys@.len(),
    {
        let ghost ms0 = jview(self.monkeys@);
        let mut least_common_multiplier: u64 = 1;
        let mut k: usize = 0;
        proof {
            lemma_div_product_bounds(ms0, 0);
        }
        while k < self.monkeys.len()
            invariant
                k <= self.monkeys@.len(),
                ms0 == jview(self.monkeys@),
                ms0.len() == self.monkeys@.len(),
                game_wf(ms0),
                div_product(ms0, 0) <= u64::MAX,
                div_product(ms0, 0) == least_common_multiplier * div_product(ms0, k as int),
                least_common_multiplier >= 1,
            decreases self.monkeys.len() - k,
        {
            proof {
                lemma_div_product_bounds(ms0, k as int);
                lemma_div_product_bounds(ms0, k + 1);
                assert(mview(self.monkeys@[k as int]) == ms0[k as int]);
                assert(div_product(ms0, k as int) == ms0[k as int].div * div_product(
                    ms0,
                    k + 1,
                ));
            }
            let d = self.monkeys[k].test.divisible_by;
            proof {
                let l = least_common_multiplier as int;
                let dd = d as int;
                let rest = div_product(ms0, k + 1);
                assert(dd == ms0[k as int].div as int);
                assert(dd >= 1);
                assert(div_product(ms0, 0) == l * (dd * rest));
                assert(l * (dd * rest) == (l * dd) * rest) by (nonlinear_arith);
                assert(l * dd <= div_product(ms0, 0)) by (nonlinear_arith)
                    requires
                        rest >= 1 && l >= 1 && dd >= 1 && div_product(ms0, 0) == (l * dd) * rest,
                ;
                assert(l * dd >= 1) by (nonlinear_arith)
                    requires
                        l >= 1 && dd >= 1,
                ;
            }
            least_common_multiplier = least_common_multiplier * d;
            k = k + 1;
        }
        proof {
            assert(div_product(ms0, ms0.len() as int) == 1);
            assert(least_common_multiplier == div_product(ms0, 0));
        }
        self.start(rounds, Relief::Modulo(least_common_multiplier));
    }
}

/// The product of the divisors from monkey `j` on.
pub open spec fn div_product(ms: Seq<MonkeyV>, j: int) -> int
    decreases ms.len() - j,
{
    if j < 0 || j >= ms.len() {
        1
    } else {
        ms[j].div * div_product(ms, j + 1)
    }
}

proof fn lemma_div_product_bounds(ms: Seq<MonkeyV>, j: int)
    requires
        game_wf(ms),
    ensures
        div_product(ms, j) >= 1,
    decreases ms.len() - j,
{
    if 0 <= j < ms.len() {
        lemma_div_product_bounds(ms, j + 1);
        assert(ms[j].div >= 1);
        assert(ms[j].div * div_product(ms, j + 1) >= 1) by (nonlinear_arith)
            requires
                ms[j].div >= 1 && div_product(ms, j + 1) >= 1,
        ;
    }
}

/// The inspection counts of the monkeys.
pub open spec fn inspections_seq(ms: Seq<MonkeyV>) -> Seq<u64> {
    ms.map_values(|m: MonkeyV| m.inspections as u64)
}

/// The product of the two largest inspection counts (the count itself when
/// there is only one monkey; 1 when there are none).
pub open spec fn monkey_business(ms: Seq<MonkeyV>) -> int {
    let a = ascending(inspections_seq(ms));
    if a.len() == 0 {
        1
    } else if a.len() == 1 {
        a.last() as int
    } else {
        a.last() * a[a.len() - 2]
    }
}

/// A copy of one item list.
fn copy_items(v: &Vec<u64>) -> (r: Vec<u64>)
    ensures
        r@ == v@,
{
    let mut r: Vec<u64> = Vec::new();
    let mut k: usize = 0;
    while k < v.len()
        invariant
            k <= v@.len(),
            r@ == v@.take(k as int),
        decreases v.len() - k,
    {
        r.push(v[k]);
        proof {
            assert(r@ =~= v@.take(k + 1));
        }
        k = k + 1;
    }
    proof {
        assert(v@.take(v@.len() as int) =~= v@);
    }
    r
}

/// A copy of the whole jungle.
fn clone_jungle(v: &Jungle) -> (r: Jungle)
    ensures
        jview(r@) == jview(v@),
        r@.len() == v@.len(),
{
    let mut r: Jungle = Vec::new();
    let mut k: usize = 0;
    while k < v.len()
        invariant
            k <= v@.len(),
            r@.len() == k,
            forall|i: int| 0 <= i < k ==> mview(#[trigger] r@[i]) == mview(v@[i]),
        decreases v.len() - k,
    {
        let src = &v[k];
        let op = match &src.operation_type {
            Some(OperationType::Multiplication) => Some(OperationType::Multiplication),
            Some(OperationType::Addition) => Some(OperationType::Addition),
            None => None,
        };
        let m = Monkey {
            idx: src.idx,
            items: copy_items(&src.items),
            operation_type: op,
            operation_number: src.operation_number,
            test: MonkeyTest {
                divisible_by: src.test.divisible_by,
                true_monkey: src.test.true_monkey,
                false_monkey: src.test.false_monkey,
            },
            inspections: src.inspections,
        };
        proof {
            assert(mview(m) == mview(v@[k as int]));
        }
        r.push(m);
        k = k + 1;
    }
    proof {
        assert(jview(r@) =~~= jview(v@));
    }
    r
}

/// What the whole computation needs once the notes parse: a playable game
/// whose runs and products stay within the machine's bounds.
pub open spec fn day11_limits(s: Seq<char>) -> bool {
    let ms = day11_monkeys(s)->Some_0;
    &&& game_wf(ms)
    &&& 20 * ms.len() as int <= usize::MAX
    &&& 10000 * ms.len() as int <= usize::MAX
    &&& play_ok(ms, 0, 20 * ms.len() as int, Relief::Coefficient(3))
    &&& div_product(ms, 0) <= u64::MAX
    &&& play_ok(ms, 0, 10000 * ms.len() as int, Relief::Modulo(div_product(ms, 0) as u64))
    &&& monkey_business(play_from(ms, 0, 20 * ms.len() as int, Relief::Coefficient(3))) <= u64::MAX
    &&& monkey_business(
        play_from(ms, 0, 10000 * ms.len() as int, Relief::Modulo(div_product(ms, 0) as u64)),
    ) <= u64::MAX
}

/// Play twenty rounds with relief and ten thousand without, reporting the
/// monkey business of each run; `None` exactly when the notes do not parse.
pub fn solution(contents: &str) -> (r: Option<(String, String)>)
    requires
        day11_monkeys(contents@) is Some ==> day11_limits(contents@),
    ensures
        r is Some <==> day11_monkeys(contents@) is Some,
        r is Some ==> ({
            let ms = day11_monkeys(contents@)->Some_0;
            &&& r->Some_0.0@ == dec_nat(
                monkey_business(play_from(ms, 0, 20 * ms.len() as int, Relief::Coefficient(3))),
            )
            &&& r->Some_0.1@ == dec_nat(
                monkey_business(
                    play_from(
                        ms,
                        0,
                        10000 * ms.len() as int,
                        Relief::Modulo(div_product(ms, 0) as u64),
                    ),
                ),
            )
        }),
{
    let monkeys = match parser(contents) {
        Some(m) => m,
        None => {
            return None;
        },
    };
    let ghost ms = day11_monkeys(contents@)->Some_0;
    let monkeys2 = clone_jungle(&monkeys);
    let mut game = KeepAwayGame { monkeys };
    let mut game2 = KeepAwayGame { monkeys: monkeys2 };
    game.start_with_relief_coefficient(20);
    let result1 = calculate_monkey_business(&game);
    game2.start_without_relief_coefficient(10000);
    let result2 = calculate_monkey_business(&game2);
    Some((u64_string(result1), u64_string(result2)))
}

/// The product of the two largest inspection counts of the game.
pub fn calculate_monkey_business(game: &KeepAwayGame) -> (r: u64)
    requires
        monkey_business(jview(game.monkeys@)) <= u64::MAX,
    ensures
        r == monkey_business(jview(game.monkeys@)),
{
    let ghost ms = jview(game.monkeys@);
    let mut monkey_inspections: Vec<u64> = Vec::new();
    let mut k: usize = 0;
    proof {
        assert(monkey_inspections@ =~= inspections_seq(ms).take(0));
    }
    while k < game.monkeys.len()
        invariant
            k <= game.monkeys@.len(),
            ms == jview(game.monkeys@),
            ms.len() == game.monkeys@.len(),
            monkey_inspections@ == inspections_seq(ms).take(k as int),
        decreases game.monkeys.len() - k,
    {
        proof {
            assert(mview(game.monkeys@[k as int]) == ms[k as int]);
        }
        monkey_inspections.push(game.monkeys[k].inspections);
        proof {
            assert(monkey_inspections@ =~= inspections_seq(ms).take(k + 1));
        }
        k = k + 1;
    }
    proof {
        assert(monkey_inspections@ =~= inspections_seq(ms));
        lemma_ascending(inspections_seq(ms));
    }
    let sorted = sort_u64(&monkey_inspections);
    if sorted.len() == 0 {
        1
    } else if sorted.len() == 1 {
        sorted[0]
    } else {
        proof {
            let a = ascending(inspections_seq(ms));
            assert(a.last() * a[a.len() - 2] >= 0) by (nonlinear_arith)
                requires
                    a.len() >= 2 && a.last() >= 0 && a[a.len() - 2] >= 0,
            ;
        }
        sorted[sorted.len() - 1] * sorted[sorted.len() - 2]
    }
}

} // verus!
