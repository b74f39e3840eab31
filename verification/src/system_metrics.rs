//! System metrics attached to a crash report: memory, disks, the failed
//! service's cgroup, and the processes with the most resident memory, each
//! parsed from what the system prints and reduced to approved numbers and names.
use vstd::prelude::*;
use crate::order::{
    lemma_name_le_antisymmetric, lemma_name_le_reflexive, lemma_name_le_total,
    lemma_name_le_transitive, name_le, names_in_order,
};
use crate::command::CommandRequest;
use crate::text::{
    all_digits, all_technical, chars_of, collect_technical, decimal, digit_char, is_digit,
    close_line, is_technical_char, lemma_parse_decimal, lemma_words_of_three, no_whitespace, keep_technical, lemma_decimal_digits, lemma_keep_technical_fixed,
    lemma_keep_technical_skips, lemma_keep_technical_trim, lemma_trim_technical, lemma_lines_insert,
    lemma_keep_technical_all, limit_len, lines, opt_view, owned, parse_u64, parse_u64_chars,
    push_char, push_decimal, split_lines, split_words, starts_with, str_eq, string_of, trim,
    trim_bounds, trim_end, trim_start, views, words, is_whitespace, all_whitespace, lemma_trim_pad,
};

verus! {

broadcast use vstd::seq_lib::group_to_multiset_ensures;

use vstd::seq_lib::lemma_multiset_commutative;

/// The number of processes that a report names.
pub const TOP_PROCESS_COUNT: usize = 3;

/// A process by its sanitized name and its resident memory in bytes.
#[derive(Debug, Clone, PartialEq, Eq)]
pub struct ProcessMemory {
    pub name: String,
    pub rss_bytes: u64,
}

/// The name and resident memory of a process.
pub open spec fn process_view(p: ProcessMemory) -> (Seq<char>, u64) {
    (p.name@, p.rss_bytes)
}

pub open spec fn process_views(s: Seq<ProcessMemory>) -> Seq<(Seq<char>, u64)> {
    s.map_values(|p: ProcessMemory| process_view(p))
}

/// Whether process `a` is reported no later than process `b`: more resident
/// memory first, and among equals the lexicographically smaller name.
pub open spec fn ranks_before(a: (Seq<char>, u64), b: (Seq<char>, u64)) -> bool {
    a.1 > b.1 || (a.1 == b.1 && name_le(a.0, b.0))
}

pub proof fn lemma_ranks_before_reflexive(a: (Seq<char>, u64))
    ensures
        ranks_before(a, a),
{
    lemma_name_le_reflexive(a.0);
}

pub proof fn lemma_ranks_before_total(a: (Seq<char>, u64), b: (Seq<char>, u64))
    ensures
        ranks_before(a, b) || ranks_before(b, a),
{
    lemma_name_le_total(a.0, b.0);
}

pub proof fn lemma_ranks_before_transitive(
    a: (Seq<char>, u64),
    b: (Seq<char>, u64),
    c: (Seq<char>, u64),
)
    requires
        ranks_before(a, b),
        ranks_before(b, c),
    ensures
        ranks_before(a, c),
{
    if a.1 == b.1 && b.1 == c.1 {
        lemma_name_le_transitive(a.0, b.0, c.0);
    }
}

pub proof fn lemma_ranks_before_antisymmetric(a: (Seq<char>, u64), b: (Seq<char>, u64))
    requires
        ranks_before(a, b),
        ranks_before(b, a),
    ensures
        a == b,
{
    lemma_name_le_antisymmetric(a.0, b.0);
}

fn process_ranks_before(a: &ProcessMemory, b: &ProcessMemory) -> (r: bool)
    ensures
        r == ranks_before(process_view(*a), process_view(*b)),
{
    a.rss_bytes > b.rss_bytes || (a.rss_bytes == b.rss_bytes && names_in_order(
        a.name.as_str(),
        b.name.as_str(),
    ))
}

/// The index of a process of `v` that ranks before all others.
fn best_process(v: &Vec<ProcessMemory>) -> (b: usize)
    requires
        v.len() > 0,
    ensures
        b < v.len(),
        forall|j: int|
            0 <= j < v.len() ==> ranks_before(process_view(v@[b as int]), process_view(#[trigger] v@[j])),
{
    let mut b: usize = 0;
    let mut k: usize = 1;
    proof {
        lemma_ranks_before_reflexive(process_view(v@[0]));
    }
    while k < v.len()
        invariant
            0 < k <= v.len(),
            b < k,
            forall|j: int|
                0 <= j < k ==> ranks_before(process_view(v@[b as int]), process_view(#[trigger] v@[j])),
        decreases v.len() - k,
    {
        if !process_ranks_before(&v[b], &v[k]) {
            proof {
                let nb = process_view(v@[k as int]);
                lemma_ranks_before_total(process_view(v@[b as int]), nb);
                lemma_ranks_before_reflexive(nb);
                assert forall|j: int| 0 <= j < k + 1 implies ranks_before(nb, process_view(#[trigger] v@[j])) by {
                    if j < k {
                        lemma_ranks_before_transitive(nb, process_view(v@[b as int]), process_view(v@[j]));
                    }
                }
            }
            b = k;
        }
        k = k + 1;
    }
    b
}

/// `top` is what a report names of the processes `input`: at most
/// `TOP_PROCESS_COUNT` of them, in report order, drawn from `input`, and
/// ranking before every process of `input` that is left out.
pub open spec fn is_top_selection(input: Seq<(Seq<char>, u64)>, top: Seq<(Seq<char>, u64)>) -> bool {
    &&& top.len() == if input.len() < TOP_PROCESS_COUNT {
        input.len()
    } else {
        TOP_PROCESS_COUNT as nat
    }
    &&& forall|i: int, j: int| 0 <= i < j < top.len() ==> ranks_before(#[trigger] top[i], #[trigger] top[j])
    &&& top.to_multiset().subset_of(input.to_multiset())
    &&& forall|x: (Seq<char>, u64)|
        #[trigger] input.to_multiset().count(x) > top.to_multiset().count(x) ==> forall|i: int|
            0 <= i < top.len() ==> ranks_before(#[trigger] top[i], x)
}

/// The processes with the most resident memory, at most `TOP_PROCESS_COUNT`
/// of them, in report order.
pub fn select_top_processes(processes: Vec<ProcessMemory>) -> (r: Vec<ProcessMemory>)
    ensures
        is_top_selection(process_views(processes@), process_views(r@)),
{
    let ghost input = processes@;
    let mut rest = processes;
    let mut top: Vec<ProcessMemory> = Vec::new();
    while top.len() < TOP_PROCESS_COUNT && rest.len() > 0
        invariant
            top.len() <= TOP_PROCESS_COUNT,
            top.len() + rest.len() == input.len(),
            process_views(top@).to_multiset().add(process_views(rest@).to_multiset())
                == process_views(input).to_multiset(),
            forall|i: int, j: int|
                0 <= i < j < top.len() ==> ranks_before(process_view(#[trigger] top@[i]), process_view(#[trigger] top@[j])),
            forall|i: int, j: int|
                0 <= i < top.len() && 0 <= j < rest.len() ==> ranks_before(process_view(#[trigger] top@[i]), process_view(#[trigger] rest@[j])),
        decreases rest.len(),
    {
        let b = best_process(&rest);
        let ghost old_rest = rest@;
        let ghost old_top = top@;
        let p = rest.remove(b);
        let ghost e = process_view(p);
        assert(process_views(rest@) =~= process_views(old_rest).remove(b as int));
        top.push(p);
        assert(process_views(top@) =~= process_views(old_top).push(e));
        assert(process_views(old_rest)[b as int] == e);
        assert(process_views(top@).to_multiset().add(process_views(rest@).to_multiset())
            =~= process_views(old_top).to_multiset().add(process_views(old_rest).to_multiset()));
        assert forall|i: int, j: int|
            0 <= i < top.len() && 0 <= j < rest.len() implies ranks_before(process_view(#[trigger] top@[i]), process_view(#[trigger] rest@[j])) by {
            let k = if j < b { j } else { j + 1 };
            assert(rest@[j] == old_rest[k]);
            if i < old_top.len() {
                assert(top@[i] == old_top[i]);
            }
        }
        assert forall|i: int, j: int|
            0 <= i < j < top.len() implies ranks_before(process_view(#[trigger] top@[i]), process_view(#[trigger] top@[j])) by {
            if j < old_top.len() {
                assert(top@[i] == old_top[i]);
                assert(top@[j] == old_top[j]);
            } else {
                assert(top@[i] == old_top[i]);
                assert(old_rest[b as int] == p);
            }
        }
    }
    proof {
        let tm = process_views(top@).to_multiset();
        let rm = process_views(rest@).to_multiset();
        let im = process_views(input).to_multiset();
        assert forall|x: (Seq<char>, u64)| im.count(x) > tm.count(x) implies forall|i: int|
            0 <= i < top.len() ==> ranks_before(process_view(#[trigger] top@[i]), x) by {
            assert(rm.count(x) > 0);
            assert(process_views(rest@).contains(x));
            let j = choose|j: int| 0 <= j < process_views(rest@).len() && process_views(rest@)[j] == x;
            assert forall|i: int| 0 <= i < top.len() implies ranks_before(process_view(#[trigger] top@[i]), x) by {
                assert(process_view(rest@[j]) == x);
            }
        }
        assert(tm.subset_of(im));
        let tv = process_views(top@);
        assert forall|i: int, j: int| 0 <= i < j < tv.len() implies ranks_before(#[trigger] tv[i], #[trigger] tv[j]) by {
            assert(tv[i] == process_view(top@[i]));
            assert(tv[j] == process_view(top@[j]));
        }
        assert forall|x: (Seq<char>, u64)| #[trigger] im.count(x) > tm.count(x) implies forall|i: int|
            0 <= i < tv.len() ==> ranks_before(#[trigger] tv[i], x) by {
            assert forall|i: int| 0 <= i < tv.len() implies ranks_before(#[trigger] tv[i], x) by {
                assert(tv[i] == process_view(top@[i]));
            }
        }
    }
    top
}

proof fn lemma_top_selection_step(
    input: Seq<(Seq<char>, u64)>,
    t1: Seq<(Seq<char>, u64)>,
    t2: Seq<(Seq<char>, u64)>,
    k: int,
)
    requires
        is_top_selection(input, t1),
        t2.to_multiset().subset_of(input.to_multiset()),
        0 <= k < t1.len(),
        k < t2.len(),
        t1.take(k) == t2.take(k),
    ensures
        ranks_before(t1[k], t2[k]),
{
    let x = t1[k];
    let y = t2[k];
    let im = input.to_multiset();
    if im.count(y) > t1.to_multiset().count(y) {
        assert(ranks_before(t1[k], y));
    } else {
        lemma_multiset_commutative(t1.take(k), t1.skip(k));
        lemma_multiset_commutative(t2.take(k), t2.skip(k));
        assert(t1.take(k) + t1.skip(k) =~= t1);
        assert(t2.take(k) + t2.skip(k) =~= t2);
        assert(t2.skip(k)[0] == y);
        assert(t2.skip(k).contains(y));
        assert(t2.skip(k).to_multiset().count(y) > 0);
        assert(t1.skip(k).to_multiset().count(y) > 0);
        assert(t1.skip(k).contains(y));
        let j = choose|j: int| 0 <= j < t1.skip(k).len() && t1.skip(k)[j] == y;
        assert(t1[k + j] == y);
        if j == 0 {
            lemma_ranks_before_reflexive(x);
        } else {
            assert(ranks_before(t1[k], t1[k + j]));
        }
    }
}

proof fn lemma_top_prefix_equal(
    input1: Seq<(Seq<char>, u64)>,
    input2: Seq<(Seq<char>, u64)>,
    top1: Seq<(Seq<char>, u64)>,
    top2: Seq<(Seq<char>, u64)>,
    k: int,
)
    requires
        input1.to_multiset() == input2.to_multiset(),
        is_top_selection(input1, top1),
        is_top_selection(input2, top2),
        top1.len() == top2.len(),
        0 <= k <= top1.len(),
    ensures
        top1.take(k) == top2.take(k),
    decreases k,
{
    if k > 0 {
        lemma_top_prefix_equal(input1, input2, top1, top2, k - 1);
        lemma_top_selection_step(input1, top1, top2, k - 1);
        lemma_top_selection_step(input2, top2, top1, k - 1);
        lemma_ranks_before_antisymmetric(top1[k - 1], top2[k - 1]);
        assert(top1.take(k) =~= top1.take(k - 1).push(top1[k - 1]));
        assert(top2.take(k) =~= top2.take(k - 1).push(top2[k - 1]));
    } else {
        assert(top1.take(0) =~= top2.take(0));
    }
}

/// The processes that a report names depend only on which processes there
/// are, not on the order in which they were read: any two selections from
/// the same processes are equal.
pub proof fn lemma_top_selection_unique(
    input1: Seq<(Seq<char>, u64)>,
    input2: Seq<(Seq<char>, u64)>,
    top1: Seq<(Seq<char>, u64)>,
    top2: Seq<(Seq<char>, u64)>,
)
    requires
        input1.to_multiset() == input2.to_multiset(),
        is_top_selection(input1, top1),
        is_top_selection(input2, top2),
    ensures
        top1 == top2,
{
    assert(input1.len() == input2.len()) by {
        vstd::seq_lib::to_multiset_len(input1);
        vstd::seq_lib::to_multiset_len(input2);
    }
    let n = top1.len() as int;
    lemma_top_prefix_equal(input1, input2, top1, top2, n);
    assert(top1.take(n) =~= top1);
    assert(top2.take(n) =~= top2);
}


/// The longest process name that a report holds, in characters.
pub const MAX_PROCESS_NAME_LENGTH: usize = 64;

/// A process name as a report may hold it: trimmed, reduced to technical
/// characters, cut to `MAX_PROCESS_NAME_LENGTH`; nothing where no character is left.
pub open spec fn sanitized_process_name(s: Seq<char>) -> Option<Seq<char>> {
    let kept = limit_len(keep_technical(trim(s)), MAX_PROCESS_NAME_LENGTH as nat);
    if kept.len() == 0 {
        None
    } else {
        Some(kept)
    }
}

pub fn sanitize_process_name(value: &str) -> (r: Option<String>)
    ensures
        opt_view(r) == sanitized_process_name(value@),
        r matches Some(name) ==> 0 < name@.len() <= MAX_PROCESS_NAME_LENGTH && all_technical(
            name@,
        ),
{
    let v = chars_of(value);
    assert(v@.subrange(0, v.len() as int) =~= v@);
    let (start, end) = trim_bounds(&v, 0, v.len());
    let kept = collect_technical(&v, start, end, MAX_PROCESS_NAME_LENGTH);
    proof {
        lemma_keep_technical_all(trim(value@));
    }
    if kept.as_str().is_empty() {
        None
    } else {
        Some(kept)
    }
}

/// A name made only of technical characters is kept as it is, cut to
/// `MAX_PROCESS_NAME_LENGTH` characters; an empty name gives nothing.
pub proof fn lemma_process_name_of_clean_name(t: Seq<char>)
    requires
        all_technical(t),
    ensures
        sanitized_process_name(t) == if t.len() == 0 {
            None
        } else if t.len() <= 64 {
            Some(t)
        } else {
            Some(t.take(64))
        },
{
    lemma_trim_technical(t);
    lemma_keep_technical_fixed(t);
}

/// A character that is not technical, wherever it stands, does not change a
/// process name.
pub proof fn lemma_process_name_ignores_other_chars(a: Seq<char>, c: char, b: Seq<char>)
    requires
        !is_technical_char(c),
    ensures
        sanitized_process_name(a + seq![c] + b) == sanitized_process_name(a + b),
{
    lemma_keep_technical_trim(a + seq![c] + b);
    lemma_keep_technical_trim(a + b);
    lemma_keep_technical_skips(a, c, b);
}

/// Bytes in a kibibyte.
pub const BYTES_PER_KIB: u64 = 1024;

/// The second word of a line, read as a number of kibibytes, in bytes.
pub open spec fn kib_value(line: Seq<char>) -> Option<u64> {
    let w = words(line);
    if w.len() < 2 {
        None
    } else {
        match parse_u64(w[1]) {
            Some(n) => if n * BYTES_PER_KIB <= u64::MAX {
                Some((n * BYTES_PER_KIB) as u64)
            } else {
                None
            },
            None => None,
        }
    }
}

fn kib_value_of_chars(line: &Vec<char>) -> (r: Option<u64>)
    ensures
        r == kib_value(line@),
{
    let w = split_words(line);
    assert(views(w@).len() == w.len());
    if w.len() < 2 {
        return None;
    }
    assert(views(w@)[1] == w@[1]@);
    assert(w@[1]@.subrange(0, w[1].len() as int) =~= w@[1]@);
    match parse_u64_chars(&w[1], 0, w[1].len()) {
        Some(n) => n.checked_mul(BYTES_PER_KIB),
        None => None,
    }
}

pub fn parse_kib_value(line: &str) -> (r: Option<u64>)
    ensures
        r == kib_value(line@),
{
    let v = chars_of(line);
    kib_value_of_chars(&v)
}

/// A field line `<key> <n> kB` gives `n` kibibytes in bytes, where that fits
/// in a `u64`.
pub proof fn lemma_kib_value_of_field_line(key: Seq<char>, n: u64)
    requires
        key.len() > 0,
        no_whitespace(key),
    ensures
        kib_value(key + seq![' '] + decimal(n as nat) + seq![' '] + seq!['k', 'B']) == if n * 1024
            <= u64::MAX {
            Some((n * 1024) as u64)
        } else {
            None
        },
{
    let d = decimal(n as nat);
    lemma_decimal_digits(n as nat);
    assert(no_whitespace(d)) by {
        assert forall|i: int| 0 <= i < d.len() implies !is_whitespace(#[trigger] d[i]) by {
            assert(is_digit(d[i]));
        }
    }
    assert(no_whitespace(seq!['k', 'B']));
    lemma_words_of_three(key, d, seq!['k', 'B']);
    lemma_parse_decimal(n as nat);
}

/// Memory and swap in bytes.
#[derive(Debug, Clone, Copy, PartialEq, Eq)]
pub struct MemorySnapshot {
    pub total_bytes: u64,
    pub available_bytes: u64,
    pub swap_total_bytes: u64,
    pub swap_used_bytes: u64,
}

/// The value of the last line that begins with `prefix`, where there is one.
pub open spec fn last_field(ls: Seq<Seq<char>>, prefix: Seq<char>) -> Option<u64>
    decreases ls.len(),
{
    if ls.len() == 0 {
        None
    } else if prefix.is_prefix_of(ls.last()) {
        kib_value(ls.last())
    } else {
        last_field(ls.drop_last(), prefix)
    }
}

/// The memory snapshot of the text of `/proc/meminfo`: each field from the
/// last line that names it, swap in use as swap total less swap free.
pub open spec fn meminfo_of(s: Seq<char>) -> Option<MemorySnapshot> {
    let ls = lines(s);
    match (
        last_field(ls, "MemTotal:"@),
        last_field(ls, "MemAvailable:"@),
        last_field(ls, "SwapTotal:"@),
        last_field(ls, "SwapFree:"@),
    ) {
        (Some(total), Some(available), Some(swap_total), Some(swap_free)) => if swap_free
            <= swap_total {
            Some(
                MemorySnapshot {
                    total_bytes: total,
                    available_bytes: available,
                    swap_total_bytes: swap_total,
                    swap_used_bytes: (swap_total - swap_free) as u64,
                },
            )
        } else {
            None
        },
        _ => None,
    }
}

/// The value of a field is that of the last line that names it.
pub proof fn lemma_last_field_is_last_matching_line(ls: Seq<Seq<char>>, prefix: Seq<char>, k: int)
    requires
        0 <= k < ls.len(),
        prefix.is_prefix_of(ls[k]),
        forall|j: int| k < j < ls.len() ==> !prefix.is_prefix_of(#[trigger] ls[j]),
    ensures
        last_field(ls, prefix) == kib_value(ls[k]),
    decreases ls.len(),
{
    if k < ls.len() - 1 {
        assert(!prefix.is_prefix_of(ls[ls.len() - 1]));
        let init = ls.drop_last();
        assert forall|j: int| k < j < init.len() implies !prefix.is_prefix_of(#[trigger] init[j]) by {
            assert(init[j] == ls[j]);
        }
        lemma_last_field_is_last_matching_line(init, prefix, k);
    }
}

/// A field that no line names has no value.
pub proof fn lemma_last_field_absent(ls: Seq<Seq<char>>, prefix: Seq<char>)
    requires
        forall|j: int| 0 <= j < ls.len() ==> !prefix.is_prefix_of(#[trigger] ls[j]),
    ensures
        last_field(ls, prefix) is None,
    decreases ls.len(),
{
    if ls.len() > 0 {
        assert(!prefix.is_prefix_of(ls[ls.len() - 1]));
        let init = ls.drop_last();
        assert forall|j: int| 0 <= j < init.len() implies !prefix.is_prefix_of(#[trigger] init[j]) by {
            assert(init[j] == ls[j]);
        }
        lemma_last_field_absent(init, prefix);
    }
}

/// Where all four fields have a value and no more swap is free than there is,
/// the snapshot holds them, with swap in use the swap total less the swap
/// free (no swap at all included); otherwise there is no snapshot.
pub proof fn lemma_meminfo_snapshot(s: Seq<char>)
    ensures
        ({
            let ls = lines(s);
            match (
                last_field(ls, "MemTotal:"@),
                last_field(ls, "MemAvailable:"@),
                last_field(ls, "SwapTotal:"@),
                last_field(ls, "SwapFree:"@),
            ) {
                (Some(total), Some(available), Some(swap_total), Some(swap_free)) => {
                    &&& swap_free <= swap_total ==> (meminfo_of(s) matches Some(m) && m.total_bytes
                        == total && m.available_bytes == available && m.swap_total_bytes
                        == swap_total && m.swap_used_bytes + swap_free == swap_total)
                    &&& swap_free > swap_total ==> meminfo_of(s) is None
                },
                _ => meminfo_of(s) is None,
            }
        }),
{
}

proof fn lemma_distinct_prefixes(line: Seq<char>, p: Seq<char>, q: Seq<char>, k: int)
    requires
        0 <= k < p.len(),
        k < q.len(),
        p[k] != q[k],
        p.is_prefix_of(line),
    ensures
        !q.is_prefix_of(line),
{
    assert(line[k] == p[k]);
}

pub fn parse_meminfo(contents: &str) -> (r: Option<MemorySnapshot>)
    ensures
        r == meminfo_of(contents@),
{
    let v = chars_of(contents);
    let ls = split_lines(&v);
    let ghost lv = views(ls@);
    let mut total_bytes: Option<u64> = None;
    let mut available_bytes: Option<u64> = None;
    let mut swap_total_bytes: Option<u64> = None;
    let mut swap_free_bytes: Option<u64> = None;
    for i in 0..ls.len()
        invariant
            lv == views(ls@),
            lv.len() == ls.len(),
            total_bytes == last_field(lv.take(i as int), "MemTotal:"@),
            available_bytes == last_field(lv.take(i as int), "MemAvailable:"@),
            swap_total_bytes == last_field(lv.take(i as int), "SwapTotal:"@),
            swap_free_bytes == last_field(lv.take(i as int), "SwapFree:"@),
    {
        let line = &ls[i];
        let ghost l = line@;
        proof {
            reveal_strlit("MemTotal:");
            reveal_strlit("MemAvailable:");
            reveal_strlit("SwapTotal:");
            reveal_strlit("SwapFree:");
        }
        assert(lv.take(i + 1).drop_last() =~= lv.take(i as int));
        assert(lv.take(i + 1).last() == l);
        if starts_with(line, "MemTotal:") {
            total_bytes = kib_value_of_chars(line);
            proof {
                lemma_distinct_prefixes(l, "MemTotal:"@, "MemAvailable:"@, 3);
                lemma_distinct_prefixes(l, "MemTotal:"@, "SwapTotal:"@, 0);
                lemma_distinct_prefixes(l, "MemTotal:"@, "SwapFree:"@, 0);
            }
        } else if starts_with(line, "MemAvailable:") {
            available_bytes = kib_value_of_chars(line);
            proof {
                lemma_distinct_prefixes(l, "MemAvailable:"@, "SwapTotal:"@, 0);
                lemma_distinct_prefixes(l, "MemAvailable:"@, "SwapFree:"@, 0);
            }
        } else if starts_with(line, "SwapTotal:") {
            swap_total_bytes = kib_value_of_chars(line);
            proof {
                lemma_distinct_prefixes(l, "SwapTotal:"@, "SwapFree:"@, 4);
            }
        } else if starts_with(line, "SwapFree:") {
            swap_free_bytes = kib_value_of_chars(line);
        }
    }
    assert(lv.take(ls.len() as int) =~= lv);
    assert(lv == lines(contents@));
    let swap_total_bytes = match swap_total_bytes {
        Some(value) => value,
        None => return None,
    };
    let total_bytes = match total_bytes {
        Some(value) => value,
        None => return None,
    };
    let available_bytes = match available_bytes {
        Some(value) => value,
        None => return None,
    };
    let swap_free_bytes = match swap_free_bytes {
        Some(value) => value,
        None => return None,
    };
    let swap_used_bytes = match swap_total_bytes.checked_sub(swap_free_bytes) {
        Some(value) => value,
        None => return None,
    };
    Some(MemorySnapshot { total_bytes, available_bytes, swap_total_bytes, swap_used_bytes })
}


proof fn lemma_last_field_skips(
    before: Seq<Seq<char>>,
    line: Seq<char>,
    after: Seq<Seq<char>>,
    prefix: Seq<char>,
)
    requires
        !prefix.is_prefix_of(line),
    ensures
        last_field(before + seq![line] + after, prefix) == last_field(before + after, prefix),
    decreases after.len(),
{
    let with = before + seq![line] + after;
    let without = before + after;
    if after.len() == 0 {
        assert(with.drop_last() =~= before);
        assert(with.last() == line);
        assert(without =~= before);
    } else {
        assert(with.last() == after.last());
        assert(without.last() == after.last());
        assert(with.drop_last() =~= before + seq![line] + after.drop_last());
        assert(without.drop_last() =~= before + after.drop_last());
        lemma_last_field_skips(before, line, after.drop_last(), prefix);
    }
}

proof fn lemma_close_line_prefix(x: Seq<char>, prefix: Seq<char>)
    requires
        prefix.is_prefix_of(close_line(x)),
    ensures
        prefix.is_prefix_of(x),
{
    if x.len() > 0 && x.last() == '\r' {
        assert(x.take(prefix.len() as int) =~= x.drop_last().take(prefix.len() as int));
    }
}

/// A line of `/proc/meminfo` that begins with none of the four keys changes
/// nothing: inserted at a line boundary, the snapshot stays the same.
pub proof fn lemma_meminfo_ignores_other_lines(a: Seq<char>, x: Seq<char>, b: Seq<char>)
    requires
        a.len() == 0 || a.last() == '\n',
        !x.contains('\n'),
        !"MemTotal:"@.is_prefix_of(x),
        !"MemAvailable:"@.is_prefix_of(x),
        !"SwapTotal:"@.is_prefix_of(x),
        !"SwapFree:"@.is_prefix_of(x),
    ensures
        meminfo_of(a + x.push('\n') + b) == meminfo_of(a + b),
{
    lemma_lines_insert(a, x, b);
    let y = close_line(x);
    if "MemTotal:"@.is_prefix_of(y) {
        lemma_close_line_prefix(x, "MemTotal:"@);
    }
    if "MemAvailable:"@.is_prefix_of(y) {
        lemma_close_line_prefix(x, "MemAvailable:"@);
    }
    if "SwapTotal:"@.is_prefix_of(y) {
        lemma_close_line_prefix(x, "SwapTotal:"@);
    }
    if "SwapFree:"@.is_prefix_of(y) {
        lemma_close_line_prefix(x, "SwapFree:"@);
    }
    lemma_last_field_skips(lines(a), y, lines(b), "MemTotal:"@);
    lemma_last_field_skips(lines(a), y, lines(b), "MemAvailable:"@);
    lemma_last_field_skips(lines(a), y, lines(b), "SwapTotal:"@);
    lemma_last_field_skips(lines(a), y, lines(b), "SwapFree:"@);
}

/// A disk's size and free space in bytes, and the percentage in use.
#[derive(Debug, Clone, Copy, PartialEq, Eq)]
pub struct DiskSnapshot {
    pub total_bytes: u64,
    pub available_bytes: u64,
    pub used_percent: u64,
}

/// The last line that holds more than whitespace.
pub open spec fn last_nonblank(ls: Seq<Seq<char>>) -> Option<Seq<char>>
    decreases ls.len(),
{
    if ls.len() == 0 {
        None
    } else if trim(ls.last()).len() > 0 {
        Some(ls.last())
    } else {
        last_nonblank(ls.drop_last())
    }
}

/// `s` without its trailing `%` characters.
pub open spec fn trim_end_percent(s: Seq<char>) -> Seq<char>
    decreases s.len(),
{
    if s.len() > 0 && s.last() == '%' {
        trim_end_percent(s.drop_last())
    } else {
        s
    }
}

/// The disk snapshot of the output of `df --output=size,avail,pcent`: the
/// first three words of its last non-blank line, the third without its `%`.
pub open spec fn df_of(s: Seq<char>) -> Option<DiskSnapshot> {
    match last_nonblank(lines(s)) {
        Some(line) => {
            let w = words(line);
            if w.len() < 3 {
                None
            } else {
                match (parse_u64(w[0]), parse_u64(w[1]), parse_u64(trim_end_percent(w[2]))) {
                    (Some(total), Some(available), Some(used)) => Some(
                        DiskSnapshot {
                            total_bytes: total,
                            available_bytes: available,
                            used_percent: used,
                        },
                    ),
                    _ => None,
                }
            }
        },
        None => None,
    }
}

fn last_nonblank_index(ls: &Vec<Vec<char>>) -> (r: Option<usize>)
    ensures
        match r {
            Some(k) => k < ls.len() && last_nonblank(views(ls@)) == Some(ls@[k as int]@),
            None => last_nonblank(views(ls@)) is None,
        },
{
    let ghost lv = views(ls@);
    let mut k = ls.len();
    assert(lv.take(k as int) =~= lv);
    while k > 0
        invariant
            k <= ls.len(),
            lv == views(ls@),
            lv.len() == ls.len(),
            last_nonblank(lv) == last_nonblank(lv.take(k as int)),
        decreases k,
    {
        let line = &ls[k - 1];
        assert(line@.subrange(0, line.len() as int) =~= line@);
        let (start, end) = trim_bounds(line, 0, line.len());
        assert(lv.take(k as int).last() == line@);
        if start < end {
            return Some(k - 1);
        }
        assert(lv.take(k as int).drop_last() =~= lv.take(k - 1));
        k = k - 1;
    }
    None
}

pub fn parse_df_output(output: &str) -> (r: Option<DiskSnapshot>)
    ensures
        r == df_of(output@),
{
    let v = chars_of(output);
    let ls = split_lines(&v);
    let ghost lv = views(ls@);
    assert(lv == lines(output@));
    let k = match last_nonblank_index(&ls) {
        Some(k) => k,
        None => return None,
    };
    let line = &ls[k];
    assert(last_nonblank(lv) == Some(line@));
    let w = split_words(line);
    assert(views(w@).len() == w.len());
    if w.len() < 3 {
        return None;
    }
    assert(views(w@)[0] == w@[0]@);
    assert(views(w@)[1] == w@[1]@);
    assert(views(w@)[2] == w@[2]@);
    assert(w@[0]@.subrange(0, w[0].len() as int) =~= w@[0]@);
    assert(w@[1]@.subrange(0, w[1].len() as int) =~= w@[1]@);
    let total_bytes = match parse_u64_chars(&w[0], 0, w[0].len()) {
        Some(value) => value,
        None => return None,
    };
    let available_bytes = match parse_u64_chars(&w[1], 0, w[1].len()) {
        Some(value) => value,
        None => return None,
    };
    let third = &w[2];
    let mut end = third.len();
    assert(third@.subrange(0, end as int) =~= third@);
    while end > 0 && third[end - 1] == '%'
        invariant
            end <= third.len(),
            trim_end_percent(third@) == trim_end_percent(third@.subrange(0, end as int)),
        decreases end,
    {
        assert(third@.subrange(0, end as int).drop_last() =~= third@.subrange(0, end - 1));
        end = end - 1;
    }
    let used_percent = match parse_u64_chars(third, 0, end) {
        Some(value) => value,
        None => return None,
    };
    Some(DiskSnapshot { total_bytes, available_bytes, used_percent })
}

/// The first line that begins with `prefix`, where there is one.
pub open spec fn first_with_prefix(ls: Seq<Seq<char>>, prefix: Seq<char>) -> Option<Seq<char>>
    decreases ls.len(),
{
    if ls.len() == 0 {
        None
    } else if prefix.is_prefix_of(ls[0]) {
        Some(ls[0])
    } else {
        first_with_prefix(ls.drop_first(), prefix)
    }
}

/// The resident memory in bytes that the text of `/proc/<pid>/status` gives
/// on its first `VmRSS:` line.
pub open spec fn rss_of(s: Seq<char>) -> Option<u64> {
    match first_with_prefix(lines(s), "VmRSS:"@) {
        Some(line) => kib_value(line),
        None => None,
    }
}

pub fn parse_process_rss(status: &str) -> (r: Option<u64>)
    ensures
        r == rss_of(status@),
{
    let v = chars_of(status);
    let ls = split_lines(&v);
    let ghost lv = views(ls@);
    assert(lv == lines(status@));
    let mut i: usize = 0;
    assert(lv.skip(0) =~= lv);
    while i < ls.len()
        invariant
            i <= ls.len(),
            lv == views(ls@),
            lv.len() == ls.len(),
            lv == lines(status@),
            first_with_prefix(lv, "VmRSS:"@) == first_with_prefix(lv.skip(i as int), "VmRSS:"@),
        decreases ls.len() - i,
    {
        assert(lv.skip(i as int)[0] == ls@[i as int]@);
        if starts_with(&ls[i], "VmRSS:") {
            return kib_value_of_chars(&ls[i]);
        }
        assert(lv.skip(i as int).drop_first() =~= lv.skip(i + 1));
        i = i + 1;
    }
    None
}


/// The segment in progress, as a sequence of zero or one segments: empty
/// segments and `.` name no component of a path.
pub open spec fn pending_segment(cur: Seq<char>) -> Seq<Seq<char>> {
    if cur.len() == 0 || cur == seq!['.'] {
        seq![]
    } else {
        seq![cur]
    }
}

/// The components of a path after its root, where `cur` holds the part of a
/// component read before `s`.
pub open spec fn segments_from(s: Seq<char>, cur: Seq<char>) -> Seq<Seq<char>>
    decreases s.len(),
{
    if s.len() == 0 {
        pending_segment(cur)
    } else if s[0] == '/' {
        pending_segment(cur) + segments_from(s.drop_first(), seq![])
    } else {
        segments_from(s.drop_first(), cur.push(s[0]))
    }
}

/// The components of a path relative to its root, as `Path::components`
/// yields them: split at `/`, with empty and `.` components left out.
pub open spec fn path_segments(s: Seq<char>) -> Seq<Seq<char>> {
    segments_from(s, seq![])
}

pub open spec fn parent_segment() -> Seq<char> {
    seq!['.', '.']
}

/// The components joined, each after a `/`.
pub open spec fn joined(segments: Seq<Seq<char>>) -> Seq<char>
    decreases segments.len(),
{
    if segments.len() == 0 {
        seq![]
    } else {
        joined(segments.drop_last()).push('/') + segments.last()
    }
}

/// The root of the cgroup file system.
pub open spec fn cgroup_root() -> Seq<char> {
    "/sys/fs/cgroup"@
}

/// The path under the cgroup root of a unit's control group, as systemd
/// prints it: absolute, with at least one component and no `..`.
pub open spec fn cgroup_path_of(control_group: Seq<char>) -> Option<Seq<char>> {
    let t = trim(control_group);
    if t.len() == 0 || t[0] != '/' {
        None
    } else {
        let segments = path_segments(t.drop_first());
        if segments.len() == 0 || segments.contains(parent_segment()) {
            None
        } else {
            Some(cgroup_root() + joined(segments))
        }
    }
}

fn split_segments(v: &Vec<char>, from: usize, to: usize) -> (r: Vec<Vec<char>>)
    requires
        from <= to <= v.len(),
    ensures
        views(r@) == path_segments(v@.subrange(from as int, to as int)),
{
    let ghost s = v@.subrange(from as int, to as int);
    let mut r: Vec<Vec<char>> = Vec::new();
    let mut cur: Vec<char> = Vec::new();
    let mut i = from;
    assert(s.skip(0) =~= s);
    while i < to
        invariant
            from <= i <= to <= v.len(),
            s == v@.subrange(from as int, to as int),
            path_segments(s) == views(r@) + segments_from(s.skip(i - from), cur@),
        decreases to - i,
    {
        let c = v[i];
        assert(s.skip(i - from).drop_first() =~= s.skip(i + 1 - from));
        assert(s.skip(i - from)[0] == c);
        if c == '/' {
            let ghost old_r = r@;
            let ghost segment = cur@;
            if cur.len() > 0 && !(cur.len() == 1 && cur[0] == '.') {
                r.push(cur);
                assert(views(r@) =~= views(old_r).push(segment));
            } else {
                assert(segment.len() == 0 || segment =~= seq!['.']);
            }
            cur = Vec::new();
            assert(views(old_r) + (pending_segment(segment) + segments_from(s.skip(i + 1 - from), seq![]))
                =~= views(r@) + segments_from(s.skip(i + 1 - from), cur@));
        } else {
            cur.push(c);
        }
        i = i + 1;
    }
    let ghost old_r = r@;
    if cur.len() > 0 && !(cur.len() == 1 && cur[0] == '.') {
        r.push(cur);
        assert(views(r@) =~= views(old_r).push(cur@));
    } else {
        assert(cur@.len() == 0 || cur@ =~= seq!['.']);
    }
    assert(views(r@) =~= path_segments(s));
    r
}

fn is_parent_segment(v: &Vec<char>) -> (r: bool)
    ensures
        r == (v@ == parent_segment()),
{
    let r = v.len() == 2 && v[0] == '.' && v[1] == '.';
    assert(r ==> v@ =~= parent_segment());
    r
}

/// The path under the cgroup root of a unit's control group; `None` where the
/// control group is not absolute, names no component, or would climb out of
/// the root with `..`.
pub fn safe_cgroup_path(control_group: &str) -> (r: Option<String>)
    ensures
        opt_view(r) == cgroup_path_of(control_group@),
{
    let v = chars_of(control_group);
    assert(v@.subrange(0, v.len() as int) =~= v@);
    let (start, end) = trim_bounds(&v, 0, v.len());
    let ghost t = v@.subrange(start as int, end as int);
    if start == end || v[start] != '/' {
        return None;
    }
    assert(t.drop_first() =~= v@.subrange(start + 1, end as int));
    let segments = split_segments(&v, start + 1, end);
    let ghost sv = views(segments@);
    if segments.len() == 0 {
        return None;
    }
    let mut path = owned("/sys/fs/cgroup");
    let mut i: usize = 0;
    assert(cgroup_path_of(control_group@) == if sv.contains(parent_segment()) {
        None
    } else {
        Some(cgroup_root() + joined(sv))
    });
    while i < segments.len()
        invariant
            i <= segments.len(),
            cgroup_path_of(control_group@) == if sv.contains(parent_segment()) {
                None
            } else {
                Some(cgroup_root() + joined(sv))
            },
            sv == views(segments@),
            sv.len() == segments.len(),
            forall|k: int| 0 <= k < i ==> #[trigger] sv[k] != parent_segment(),
            path@ == cgroup_root() + joined(sv.take(i as int)),
        decreases segments.len() - i,
    {
        let segment = &segments[i];
        assert(sv[i as int] == segment@);
        if is_parent_segment(segment) {
            assert(sv.contains(parent_segment()));
            return None;
        }
        push_char(&mut path, '/');
        let mut j: usize = 0;
        let ghost base = path@;
        while j < segment.len()
            invariant
                j <= segment.len(),
                path@ == base + segment@.take(j as int),
            decreases segment.len() - j,
        {
            push_char(&mut path, segment[j]);
            assert(segment@.take(j + 1) =~= segment@.take(j as int).push(segment@[j as int]));
            j = j + 1;
        }
        assert(segment@.take(j as int) =~= segment@);
        assert(sv.take(i + 1).drop_last() =~= sv.take(i as int));
        assert(sv.take(i + 1).last() == segment@);
        assert(path@ =~= cgroup_root() + joined(sv.take(i + 1)));
        i = i + 1;
    }
    assert(sv.take(i as int) =~= sv);
    assert(!sv.contains(parent_segment()));
    Some(path)
}


/// A number as a file under `/proc` or `/sys` prints it, surrounded by whitespace.
pub open spec fn unsigned_of(s: Seq<char>) -> Option<u64> {
    parse_u64(trim(s))
}

pub fn parse_unsigned(value: &str) -> (r: Option<u64>)
    ensures
        r == unsigned_of(value@),
{
    let v = chars_of(value);
    assert(v@.subrange(0, v.len() as int) =~= v@);
    let (start, end) = trim_bounds(&v, 0, v.len());
    parse_u64_chars(&v, start, end)
}

/// Bytes in a mebibyte.
pub const BYTES_PER_MIB: u64 = 1024 * 1024;

/// `value` in mebibytes, rounded half up, where adding half a mebibyte
/// saturates at `u64::MAX`.
pub open spec fn mib_of(value: u64) -> u64 {
    let half = BYTES_PER_MIB / 2;
    let rounded = if value + half > u64::MAX {
        u64::MAX as int
    } else {
        value + half
    };
    (rounded / BYTES_PER_MIB as int) as u64
}

pub fn bytes_to_mib(value: u64) -> (r: u64)
    ensures
        r == mib_of(value),
{
    value.saturating_add(BYTES_PER_MIB / 2) / BYTES_PER_MIB
}

/// Nanoseconds in a tenth of a second.
pub const NANOSECONDS_PER_TENTH_SECOND: u64 = 100_000_000;

/// `value` nanoseconds in tenths of a second, rounded half up, where adding
/// half a tenth saturates at `u64::MAX`.
pub open spec fn tenths_of(value: u64) -> u64 {
    let half = NANOSECONDS_PER_TENTH_SECOND / 2;
    let rounded = if value + half > u64::MAX {
        u64::MAX as int
    } else {
        value + half
    };
    (rounded / NANOSECONDS_PER_TENTH_SECOND as int) as u64
}

/// The tenths of a second in which a report gives a duration in nanoseconds.
pub fn nanoseconds_to_tenths(value: u64) -> (r: u64)
    ensures
        r == tenths_of(value),
{
    value.saturating_add(NANOSECONDS_PER_TENTH_SECOND / 2) / NANOSECONDS_PER_TENTH_SECOND
}

/// What a command's output becomes: the output trimmed, or nothing where the
/// command gave no output or only whitespace.
pub open spec fn command_value_of(stdout: Option<Seq<char>>) -> Option<Seq<char>> {
    match stdout {
        Some(out) => if trim(out).len() == 0 {
            None
        } else {
            Some(trim(out))
        },
        None => None,
    }
}

/// Reads the value of a command's standard output; `stdout` is `None` where
/// the command could not run, failed, or wrote what is not UTF-8.
pub fn command_value(stdout: Option<String>) -> (r: Option<String>)
    ensures
        opt_view(r) == command_value_of(opt_view(stdout)),
{
    match stdout {
        Some(out) => {
            let v = chars_of(out.as_str());
            assert(v@.subrange(0, v.len() as int) =~= v@);
            let (start, end) = trim_bounds(&v, 0, v.len());
            if start == end {
                None
            } else {
                Some(string_of(&v, start, end))
            }
        },
        None => None,
    }
}

/// The `systemctl` command that prints the value of one property of a unit.
pub fn systemd_property(unit: &str, property: &str) -> (r: CommandRequest)
    ensures
        r.program@ == "systemctl"@,
        r.argument_views() == seq!["show"@, unit@, "--property"@, property@, "--value"@],
{
    crate::report::systemd_property(unit, property)
}

/// The `df` command that prints the size, free space and use of the file
/// system that holds `path`.
pub fn disk_usage_command(path: &str) -> (r: CommandRequest)
    ensures
        r.program@ == "df"@,
        r.argument_views() == seq!["-B1"@, "--output=size,avail,pcent"@, "--"@, path@],
{
    let mut arguments: Vec<String> = Vec::new();
    arguments.push(owned("-B1"));
    arguments.push(owned("--output=size,avail,pcent"));
    arguments.push(owned("--"));
    arguments.push(owned(path));
    let r = CommandRequest { program: owned("df"), arguments };
    assert(r.argument_views() =~= seq!["-B1"@, "--output=size,avail,pcent"@, "--"@, path@]);
    r
}

/// The file that holds the peak memory of a control group.
pub open spec fn memory_peak_path_of(control_group: Option<Seq<char>>) -> Option<Seq<char>> {
    match control_group {
        Some(group) => match cgroup_path_of(group) {
            Some(path) => Some(path + "/memory.peak"@),
            None => None,
        },
        None => None,
    }
}

/// The file to read for the peak memory of the failed service, from the
/// control group that `systemctl` printed for it.
pub fn memory_peak_path(control_group: Option<String>) -> (r: Option<String>)
    ensures
        opt_view(r) == memory_peak_path_of(opt_view(control_group)),
{
    match control_group {
        Some(group) => match safe_cgroup_path(group.as_str()) {
            Some(mut path) => {
                path.append("/memory.peak");
                Some(path)
            },
            None => None,
        },
        None => None,
    }
}

/// Whether an entry of `/proc` is a process: its name is a `u32`.
pub open spec fn is_process_entry(name: Seq<char>) -> bool {
    match parse_u64(name) {
        Some(n) => n <= u32::MAX,
        None => false,
    }
}

pub fn is_process_directory(name: &str) -> (r: bool)
    ensures
        r == is_process_entry(name@),
{
    let v = chars_of(name);
    assert(v@.subrange(0, v.len() as int) =~= v@);
    match parse_u64_chars(&v, 0, v.len()) {
        Some(n) => n <= 4294967295u64,
        None => false,
    }
}

/// A process from the texts of its `comm` and `status` files under `/proc`:
/// its sanitized name and resident memory, where both can be read.
pub fn process_memory(comm: &str, status: &str) -> (r: Option<ProcessMemory>)
    ensures
        match r {
            Some(p) => sanitized_process_name(comm@) == Some(p.name@) && rss_of(status@) == Some(
                p.rss_bytes,
            ),
            None => sanitized_process_name(comm@) is None || rss_of(status@) is None,
        },
{
    let name = match sanitize_process_name(comm) {
        Some(name) => name,
        None => return None,
    };
    let rss_bytes = match parse_process_rss(status) {
        Some(rss) => rss,
        None => return None,
    };
    Some(ProcessMemory { name, rss_bytes })
}


/// A metric's value: a whole number, a name, or a duration in tenths of a second.
pub enum MetricValue {
    Unsigned(u64),
    Text(String),
    TenthsOfSecond(u64),
}

/// A metric's value with its text as characters.
pub enum MetricView {
    Unsigned(u64),
    Text(Seq<char>),
    TenthsOfSecond(u64),
}

pub open spec fn metric_view(v: MetricValue) -> MetricView {
    match v {
        MetricValue::Unsigned(n) => MetricView::Unsigned(n),
        MetricValue::Text(s) => MetricView::Text(s@),
        MetricValue::TenthsOfSecond(n) => MetricView::TenthsOfSecond(n),
    }
}

pub open spec fn metric_views(m: Seq<(String, MetricValue)>) -> Seq<(Seq<char>, MetricView)> {
    m.map_values(|e: (String, MetricValue)| (e.0@, metric_view(e.1)))
}

/// What the system showed when the report was made; each reading is `None`
/// where it could not be had.
pub struct SystemReadings {
    pub memory: Option<MemorySnapshot>,
    pub root_disk: Option<DiskSnapshot>,
    pub user_data_disk: Option<DiskSnapshot>,
    /// The peak memory of the failed service's control group, in bytes.
    pub failed_service_memory_peak: Option<u64>,
    /// The CPU time of the failed service, in nanoseconds.
    pub failed_service_cpu_usage: Option<u64>,
    /// The processes to name, as `select_top_processes` gave them.
    pub top_processes: Vec<ProcessMemory>,
}

pub open spec fn memory_metrics(memory: Option<MemorySnapshot>) -> Seq<(Seq<char>, MetricView)> {
    match memory {
        Some(m) => seq![
            ("memory-total-mib"@, MetricView::Unsigned(mib_of(m.total_bytes))),
            ("memory-available-mib"@, MetricView::Unsigned(mib_of(m.available_bytes))),
            ("swap-total-mib"@, MetricView::Unsigned(mib_of(m.swap_total_bytes))),
            ("swap-used-mib"@, MetricView::Unsigned(mib_of(m.swap_used_bytes))),
        ],
        None => seq![],
    }
}

pub open spec fn disk_metrics_of(prefix: Seq<char>, disk: Option<DiskSnapshot>) -> Seq<
    (Seq<char>, MetricView),
> {
    match disk {
        Some(d) => seq![
            (prefix + "-disk-total-mib"@, MetricView::Unsigned(mib_of(d.total_bytes))),
            (prefix + "-disk-available-mib"@, MetricView::Unsigned(mib_of(d.available_bytes))),
            (prefix + "-disk-used-percent"@, MetricView::Unsigned(d.used_percent)),
        ],
        None => seq![],
    }
}

/// The name and memory metrics of the processes, numbered from 1.
pub open spec fn process_metrics(top: Seq<(Seq<char>, u64)>) -> Seq<(Seq<char>, MetricView)>
    decreases top.len(),
{
    if top.len() == 0 {
        seq![]
    } else {
        let position = decimal(top.len() as nat);
        process_metrics(top.drop_last()) + seq![
            ("top-process-"@ + position, MetricView::Text(top.last().0)),
            ("top-process-"@ + position + "-rss-mib"@, MetricView::Unsigned(mib_of(top.last().1))),
        ]
    }
}

/// The metrics of a report, in the order in which they are gathered.
pub open spec fn metrics_of(
    memory: Option<MemorySnapshot>,
    root_disk: Option<DiskSnapshot>,
    user_data_disk: Option<DiskSnapshot>,
    memory_peak: Option<u64>,
    cpu_usage: Option<u64>,
    top: Seq<(Seq<char>, u64)>,
) -> Seq<(Seq<char>, MetricView)> {
    memory_metrics(memory) + disk_metrics_of("root"@, root_disk) + disk_metrics_of(
        "user-data"@,
        user_data_disk,
    ) + match memory_peak {
        Some(peak) => seq![("failed-service-memory-peak-mib"@, MetricView::Unsigned(mib_of(peak)))],
        None => seq![],
    } + match cpu_usage {
        Some(ns) => seq![
            ("failed-service-cpu-usage-seconds"@, MetricView::TenthsOfSecond(tenths_of(ns))),
        ],
        None => seq![],
    } + process_metrics(top)
}

fn push_metric(
    metrics: &mut Vec<(String, MetricValue)>,
    key: String,
    value: MetricValue,
)
    ensures
        metric_views(final(metrics)@) == metric_views(old(metrics)@).push((key@, metric_view(value))),
{
    metrics.push((key, value));
    assert(metric_views(final(metrics)@) =~= metric_views(old(metrics)@).push((key@, metric_view(value))));
}

fn prefixed(prefix: &str, suffix: &str) -> (r: String)
    ensures
        r@ == prefix@ + suffix@,
{
    let mut r = owned(prefix);
    r.append(suffix);
    r
}

/// Adds the three metrics of a disk, their keys beginning with `prefix`.
pub fn insert_disk_metrics(
    metrics: &mut Vec<(String, MetricValue)>,
    prefix: &str,
    snapshot: DiskSnapshot,
)
    ensures
        metric_views(final(metrics)@) == metric_views(old(metrics)@) + disk_metrics_of(prefix@, Some(snapshot)),
{
    push_metric(metrics, prefixed(prefix, "-disk-total-mib"), MetricValue::Unsigned(bytes_to_mib(snapshot.total_bytes)));
    push_metric(metrics, prefixed(prefix, "-disk-available-mib"), MetricValue::Unsigned(bytes_to_mib(snapshot.available_bytes)));
    push_metric(metrics, prefixed(prefix, "-disk-used-percent"), MetricValue::Unsigned(snapshot.used_percent));
    assert(metric_views(final(metrics)@) =~= metric_views(old(metrics)@) + disk_metrics_of(prefix@, Some(snapshot)));
}

proof fn lemma_distinct_fields(fields: Seq<(String, MetricValue)>)
    requires
        distinct_metric_keys(metric_views(fields)),
    ensures
        forall|i: int, j: int|
            0 <= i < j < fields.len() ==> #[trigger] fields[i].0@ != #[trigger] fields[j].0@,
{
    let mv = metric_views(fields);
    assert forall|i: int, j: int| 0 <= i < j < fields.len() implies #[trigger] fields[i].0@
        != #[trigger] fields[j].0@ by {
        assert(mv[i].0 == fields[i].0@);
        assert(mv[j].0 == fields[j].0@);
    }
}

/// The metrics of a report from the readings of the system.
pub fn collect(readings: SystemReadings) -> (r: Vec<(String, MetricValue)>)
    ensures
        metric_views(r@) == metrics_of(
            readings.memory,
            readings.root_disk,
            readings.user_data_disk,
            readings.failed_service_memory_peak,
            readings.failed_service_cpu_usage,
            process_views(readings.top_processes@),
        ),
        forall|i: int, j: int| 0 <= i < j < r.len() ==> #[trigger] r@[i].0@ != #[trigger] r@[j].0@,
        readings.top_processes@.len() <= TOP_PROCESS_COUNT ==> forall|i: int|
            0 <= i < r.len() ==> is_allowed_context_field(#[trigger] r@[i].0@),
{
    let mut metrics: Vec<(String, MetricValue)> = Vec::new();
    if let Some(memory) = readings.memory {
        push_metric(&mut metrics, owned("memory-total-mib"), MetricValue::Unsigned(bytes_to_mib(memory.total_bytes)));
        push_metric(&mut metrics, owned("memory-available-mib"), MetricValue::Unsigned(bytes_to_mib(memory.available_bytes)));
        push_metric(&mut metrics, owned("swap-total-mib"), MetricValue::Unsigned(bytes_to_mib(memory.swap_total_bytes)));
        push_metric(&mut metrics, owned("swap-used-mib"), MetricValue::Unsigned(bytes_to_mib(memory.swap_used_bytes)));
    }
    assert(metric_views(metrics@) =~= memory_metrics(readings.memory));
    let ghost after_memory = metric_views(metrics@);
    if let Some(disk) = readings.root_disk {
        insert_disk_metrics(&mut metrics, "root", disk);
    }
    assert(metric_views(metrics@) =~= after_memory + disk_metrics_of("root"@, readings.root_disk));
    let ghost after_root = metric_views(metrics@);
    if let Some(disk) = readings.user_data_disk {
        insert_disk_metrics(&mut metrics, "user-data", disk);
    }
    assert(metric_views(metrics@) =~= after_root + disk_metrics_of("user-data"@, readings.user_data_disk));
    let ghost after_disks = metric_views(metrics@);
    if let Some(peak) = readings.failed_service_memory_peak {
        push_metric(&mut metrics, owned("failed-service-memory-peak-mib"), MetricValue::Unsigned(bytes_to_mib(peak)));
    }
    let ghost after_peak = metric_views(metrics@);
    if let Some(ns) = readings.failed_service_cpu_usage {
        push_metric(&mut metrics, owned("failed-service-cpu-usage-seconds"), MetricValue::TenthsOfSecond(nanoseconds_to_tenths(ns)));
    }
    let ghost before_processes = metric_views(metrics@);
    let top = readings.top_processes;
    let ghost tv = process_views(top@);
    let n = top.len();
    let mut index: usize = 0;
    assert(tv.take(0) =~= Seq::<(Seq<char>, u64)>::empty());
    assert(metric_views(metrics@) =~= before_processes + process_metrics(tv.take(0)));
    while index < n
        invariant
            n == top.len(),
            index <= n,
            tv == process_views(top@),
            metric_views(metrics@) == before_processes + process_metrics(tv.take(index as int)),
        decreases n - index,
    {
        let process = &top[index];
        let position = (index + 1) as u64;
        let mut name_key = owned("top-process-");
        push_decimal(&mut name_key, position);
        let mut rss_key = owned("top-process-");
        push_decimal(&mut rss_key, position);
        rss_key.append("-rss-mib");
        let ghost before = metric_views(metrics@);
        push_metric(&mut metrics, name_key, MetricValue::Text(process.name.clone()));
        push_metric(&mut metrics, rss_key, MetricValue::Unsigned(bytes_to_mib(process.rss_bytes)));
        assert(tv.take(index + 1).drop_last() =~= tv.take(index as int));
        assert(tv.take(index + 1).last() == process_view(*process));
        assert(tv.take(index + 1).len() == index + 1);
        assert(metric_views(metrics@) =~= before_processes + process_metrics(tv.take(index + 1)));
        index = index + 1;
    }
    assert(tv.take(n as int) =~= tv);
    assert(metric_views(metrics@) =~= metrics_of(
        readings.memory,
        readings.root_disk,
        readings.user_data_disk,
        readings.failed_service_memory_peak,
        readings.failed_service_cpu_usage,
        tv,
    ));
    proof {
        lemma_metric_keys_distinct(
            readings.memory,
            readings.root_disk,
            readings.user_data_disk,
            readings.failed_service_memory_peak,
            readings.failed_service_cpu_usage,
            tv,
        );
        lemma_distinct_fields(metrics@);
        if tv.len() <= TOP_PROCESS_COUNT {
            lemma_collected_keys_approved(
                readings.memory,
                readings.root_disk,
                readings.user_data_disk,
                readings.failed_service_memory_peak,
                readings.failed_service_cpu_usage,
                tv,
                metrics@,
            );
        }
    }
    metrics
}


/// The metrics that a report may carry.
pub open spec fn is_allowed_context_field(key: Seq<char>) -> bool {
    ||| key == "memory-total-mib"@
    ||| key == "memory-available-mib"@
    ||| key == "swap-total-mib"@
    ||| key == "swap-used-mib"@
    ||| key == "root-disk-total-mib"@
    ||| key == "root-disk-available-mib"@
    ||| key == "root-disk-used-percent"@
    ||| key == "user-data-disk-total-mib"@
    ||| key == "user-data-disk-available-mib"@
    ||| key == "user-data-disk-used-percent"@
    ||| key == "failed-service-memory-peak-mib"@
    ||| key == "failed-service-cpu-usage-seconds"@
    ||| key == "top-process-1"@
    ||| key == "top-process-1-rss-mib"@
    ||| key == "top-process-2"@
    ||| key == "top-process-2-rss-mib"@
    ||| key == "top-process-3"@
    ||| key == "top-process-3-rss-mib"@
}

pub fn allowed_context_field(key: &str) -> (r: bool)
    ensures
        r == is_allowed_context_field(key@),
{
    str_eq(key, "memory-total-mib") || str_eq(key, "memory-available-mib") || str_eq(
        key,
        "swap-total-mib",
    ) || str_eq(key, "swap-used-mib") || str_eq(key, "root-disk-total-mib") || str_eq(
        key,
        "root-disk-available-mib",
    ) || str_eq(key, "root-disk-used-percent") || str_eq(key, "user-data-disk-total-mib")
        || str_eq(key, "user-data-disk-available-mib") || str_eq(
        key,
        "user-data-disk-used-percent",
    ) || str_eq(key, "failed-service-memory-peak-mib") || str_eq(
        key,
        "failed-service-cpu-usage-seconds",
    ) || str_eq(key, "top-process-1") || str_eq(key, "top-process-1-rss-mib") || str_eq(
        key,
        "top-process-2",
    ) || str_eq(key, "top-process-2-rss-mib") || str_eq(key, "top-process-3") || str_eq(
        key,
        "top-process-3-rss-mib",
    )
}

/// The fields with an approved key, in order.
pub open spec fn approved_fields<V>(fields: Seq<(String, V)>) -> Seq<(String, V)>
    decreases fields.len(),
{
    if fields.len() == 0 {
        seq![]
    } else {
        let rest = approved_fields(fields.drop_last());
        if is_allowed_context_field(fields.last().0@) {
            rest.push(fields.last())
        } else {
            rest
        }
    }
}

proof fn lemma_skip_next<A>(a: Seq<A>, i: int, b: Seq<A>, k: int)
    requires
        0 <= i < a.len(),
        0 <= k < b.len(),
        a.skip(i) == b.skip(k),
    ensures
        a.skip(i + 1) == b.skip(k + 1),
{
    assert(a.skip(i + 1) =~= a.skip(i).drop_first());
    assert(b.skip(k + 1) =~= b.skip(k).drop_first());
}

fn retain_approved<V>(values: &mut Vec<(String, V)>)
    ensures
        final(values)@ == approved_fields(old(values)@),
{
    let ghost original = values@;
    let ghost mut k: int = 0;
    let mut i: usize = 0;
    assert(values@.take(0) =~= approved_fields(original.take(0)));
    assert(values@.skip(0) =~= original.skip(0));
    while i < values.len()
        invariant
            0 <= k <= original.len(),
            i <= values.len(),
            values.len() - i == original.len() - k,
            values@.take(i as int) == approved_fields(original.take(k)),
            values@.skip(i as int) == original.skip(k),
        decreases values.len() - i,
    {
        assert(values@[i as int] == values@.skip(i as int)[0]);
        assert(original.take(k + 1).drop_last() =~= original.take(k));
        assert(original.take(k + 1).last() == original[k]);
        if allowed_context_field(values[i].0.as_str()) {
            assert(values@.take(i + 1) =~= values@.take(i as int).push(values@[i as int]));
            proof {
                lemma_skip_next(values@, i as int, original, k);
            }
            i = i + 1;
        } else {
            let ghost before = values@;
            values.remove(i);
            assert(values@.take(i as int) =~= before.take(i as int));
            proof {
                lemma_skip_next(before, i as int, original, k);
                assert(values@.skip(i as int) =~= before.skip(i + 1));
            }
        }
        proof {
            k = k + 1;
        }
    }
    assert(original.take(k) =~= original);
    assert(values@.take(i as int) =~= values@);
}

/// No two fields share a key.
pub open spec fn distinct_field_keys<V>(fields: Seq<(String, V)>) -> bool {
    forall|i: int, j: int|
        0 <= i < j < fields.len() ==> #[trigger] fields[i].0@ != #[trigger] fields[j].0@
}

/// The approved fields are fields of the context, and keys that were distinct
/// stay distinct.
pub proof fn lemma_approved_fields_keys<V>(fields: Seq<(String, V)>)
    ensures
        forall|i: int|
            0 <= i < approved_fields(fields).len() ==> exists|j: int|
                0 <= j < fields.len() && fields[j] == #[trigger] approved_fields(fields)[i],
        distinct_field_keys(fields) ==> distinct_field_keys(approved_fields(fields)),
    decreases fields.len(),
{
    if fields.len() > 0 {
        let init = fields.drop_last();
        lemma_approved_fields_keys(init);
        let rest = approved_fields(init);
        let af = approved_fields(fields);
        assert forall|i: int| 0 <= i < af.len() implies exists|j: int|
            0 <= j < fields.len() && fields[j] == #[trigger] af[i] by {
            if i < rest.len() {
                assert(af[i] == rest[i]);
                let j = choose|j: int| 0 <= j < init.len() && init[j] == rest[i];
                assert(fields[j] == init[j]);
            } else {
                assert(fields[fields.len() - 1] == af[i]);
            }
        }
        if distinct_field_keys(fields) {
            assert(distinct_field_keys(init)) by {
                assert forall|i: int, j: int| 0 <= i < j < init.len() implies #[trigger] init[i].0@
                    != #[trigger] init[j].0@ by {
                    assert(init[i] == fields[i] && init[j] == fields[j]);
                }
            }
            assert forall|i: int, j: int| 0 <= i < j < af.len() implies #[trigger] af[i].0@
                != #[trigger] af[j].0@ by {
                if j < rest.len() {
                    assert(af[i] == rest[i] && af[j] == rest[j]);
                } else {
                    assert(af[i] == rest[i]);
                    let k = choose|k: int| 0 <= k < init.len() && init[k] == rest[i];
                    assert(fields[k] == init[k]);
                    assert(af[j] == fields[fields.len() - 1]);
                }
            }
        }
    }
}

/// A report context: the metrics this library gathers, or a context of another kind.
pub enum Context<V, T> {
    Other(Vec<(String, V)>),
    Typed(T),
}

/// Reduces a metrics context to its approved fields and tells whether any is
/// left; a context of another kind is left as it is and not kept.
pub fn sanitize<V, T>(context: &mut Context<V, T>) -> (r: bool)
    ensures
        match *old(context) {
            Context::Other(fields) => match *final(context) {
                Context::Other(kept) => {
                    &&& kept@ == approved_fields(fields@)
                    &&& r == (kept@.len() > 0)
                    &&& distinct_field_keys(fields@) ==> distinct_field_keys(kept@)
                },
                Context::Typed(_) => false,
            },
            Context::Typed(_) => *final(context) == *old(context) && !r,
        },
{
    match context {
        Context::Other(values) => {
            proof {
                lemma_approved_fields_keys(values@);
            }
            retain_approved(values);
            values.len() > 0
        },
        Context::Typed(_) => false,
    }
}


proof fn lemma_process_keys_approved(top: Seq<(Seq<char>, u64)>)
    requires
        top.len() <= TOP_PROCESS_COUNT,
    ensures
        forall|i: int|
            0 <= i < process_metrics(top).len() ==> is_allowed_context_field(
                #[trigger] process_metrics(top)[i].0,
            ),
    decreases top.len(),
{
    if top.len() > 0 {
        lemma_process_keys_approved(top.drop_last());
        let rest = process_metrics(top.drop_last());
        let all = process_metrics(top);
        reveal_strlit("top-process-");
        reveal_strlit("-rss-mib");
        reveal_strlit("top-process-1");
        reveal_strlit("top-process-1-rss-mib");
        reveal_strlit("top-process-2");
        reveal_strlit("top-process-2-rss-mib");
        reveal_strlit("top-process-3");
        reveal_strlit("top-process-3-rss-mib");
        let position = decimal(top.len() as nat);
        assert(position =~= seq![digit_char(top.len() as nat)]);
        if top.len() == 1 {
            assert("top-process-"@ + position =~= "top-process-1"@);
            assert("top-process-"@ + position + "-rss-mib"@ =~= "top-process-1-rss-mib"@);
        } else if top.len() == 2 {
            assert("top-process-"@ + position =~= "top-process-2"@);
            assert("top-process-"@ + position + "-rss-mib"@ =~= "top-process-2-rss-mib"@);
        } else {
            assert("top-process-"@ + position =~= "top-process-3"@);
            assert("top-process-"@ + position + "-rss-mib"@ =~= "top-process-3-rss-mib"@);
        }
        assert forall|i: int| 0 <= i < all.len() implies is_allowed_context_field(
            #[trigger] all[i].0,
        ) by {
            if i < rest.len() {
                assert(all[i] == rest[i]);
            }
        }
    }
}

proof fn lemma_disk_keys_approved(disk: Option<DiskSnapshot>)
    ensures
        forall|i: int|
            0 <= i < disk_metrics_of("root"@, disk).len() ==> is_allowed_context_field(
                #[trigger] disk_metrics_of("root"@, disk)[i].0,
            ),
        forall|i: int|
            0 <= i < disk_metrics_of("user-data"@, disk).len() ==> is_allowed_context_field(
                #[trigger] disk_metrics_of("user-data"@, disk)[i].0,
            ),
{
    reveal_strlit("root");
    reveal_strlit("user-data");
    reveal_strlit("-disk-total-mib");
    reveal_strlit("-disk-available-mib");
    reveal_strlit("-disk-used-percent");
    reveal_strlit("root-disk-total-mib");
    reveal_strlit("root-disk-available-mib");
    reveal_strlit("root-disk-used-percent");
    reveal_strlit("user-data-disk-total-mib");
    reveal_strlit("user-data-disk-available-mib");
    reveal_strlit("user-data-disk-used-percent");
    assert("root"@ + "-disk-total-mib"@ =~= "root-disk-total-mib"@);
    assert("root"@ + "-disk-available-mib"@ =~= "root-disk-available-mib"@);
    assert("root"@ + "-disk-used-percent"@ =~= "root-disk-used-percent"@);
    assert("user-data"@ + "-disk-total-mib"@ =~= "user-data-disk-total-mib"@);
    assert("user-data"@ + "-disk-available-mib"@ =~= "user-data-disk-available-mib"@);
    assert("user-data"@ + "-disk-used-percent"@ =~= "user-data-disk-used-percent"@);
}

proof fn lemma_approved_fields_fixed<V>(fields: Seq<(String, V)>)
    requires
        forall|i: int| 0 <= i < fields.len() ==> is_allowed_context_field(#[trigger] fields[i].0@),
    ensures
        approved_fields(fields) == fields,
    decreases fields.len(),
{
    if fields.len() > 0 {
        let init = fields.drop_last();
        assert forall|i: int| 0 <= i < init.len() implies is_allowed_context_field(
            #[trigger] init[i].0@,
        ) by {
            assert(init[i] == fields[i]);
        }
        lemma_approved_fields_fixed(init);
        assert(fields[fields.len() - 1] == fields.last());
        assert(init.push(fields.last()) =~= fields);
    }
}

/// The keys of the metrics that `collect` gathers for at most
/// `TOP_PROCESS_COUNT` processes are all approved.
pub proof fn lemma_collected_keys_approved(
    memory: Option<MemorySnapshot>,
    root_disk: Option<DiskSnapshot>,
    user_data_disk: Option<DiskSnapshot>,
    memory_peak: Option<u64>,
    cpu_usage: Option<u64>,
    top: Seq<(Seq<char>, u64)>,
    fields: Seq<(String, MetricValue)>,
)
    requires
        top.len() <= TOP_PROCESS_COUNT,
        metric_views(fields) == metrics_of(
            memory,
            root_disk,
            user_data_disk,
            memory_peak,
            cpu_usage,
            top,
        ),
    ensures
        forall|i: int| 0 <= i < fields.len() ==> is_allowed_context_field(#[trigger] fields[i].0@),
{
    let m = metrics_of(memory, root_disk, user_data_disk, memory_peak, cpu_usage, top);
    lemma_process_keys_approved(top);
    lemma_disk_keys_approved(root_disk);
    lemma_disk_keys_approved(user_data_disk);
    let a = memory_metrics(memory);
    let b = disk_metrics_of("root"@, root_disk);
    let c = disk_metrics_of("user-data"@, user_data_disk);
    let d: Seq<(Seq<char>, MetricView)> = match memory_peak {
        Some(peak) => seq![("failed-service-memory-peak-mib"@, MetricView::Unsigned(mib_of(peak)))],
        None => seq![],
    };
    let e: Seq<(Seq<char>, MetricView)> = match cpu_usage {
        Some(ns) => seq![
            ("failed-service-cpu-usage-seconds"@, MetricView::TenthsOfSecond(tenths_of(ns))),
        ],
        None => seq![],
    };
    let f = process_metrics(top);
    assert(m =~= a + b + c + d + e + f);
    assert forall|i: int| 0 <= i < fields.len() implies is_allowed_context_field(
        #[trigger] fields[i].0@,
    ) by {
        assert(metric_views(fields)[i].0 == fields[i].0@);
        let k = m[i].0;
        if i < a.len() {
            assert(m[i] == a[i]);
        } else if i < a.len() + b.len() {
            assert(m[i] == b[i - a.len()]);
        } else if i < a.len() + b.len() + c.len() {
            assert(m[i] == c[i - a.len() - b.len()]);
        } else if i < a.len() + b.len() + c.len() + d.len() {
            assert(m[i] == d[i - a.len() - b.len() - c.len()]);
        } else if i < a.len() + b.len() + c.len() + d.len() + e.len() {
            assert(m[i] == e[i - a.len() - b.len() - c.len() - d.len()]);
        } else {
            assert(m[i] == f[i - a.len() - b.len() - c.len() - d.len() - e.len()]);
        }
    }
}

/// The metrics that `collect` gathers for at most `TOP_PROCESS_COUNT`
/// processes are all approved: `sanitize` keeps every one of them.
pub proof fn lemma_sanitize_keeps_collected_metrics(
    memory: Option<MemorySnapshot>,
    root_disk: Option<DiskSnapshot>,
    user_data_disk: Option<DiskSnapshot>,
    memory_peak: Option<u64>,
    cpu_usage: Option<u64>,
    top: Seq<(Seq<char>, u64)>,
    fields: Seq<(String, MetricValue)>,
)
    requires
        top.len() <= TOP_PROCESS_COUNT,
        metric_views(fields) == metrics_of(
            memory,
            root_disk,
            user_data_disk,
            memory_peak,
            cpu_usage,
            top,
        ),
    ensures
        approved_fields(fields) == fields,
{
    lemma_collected_keys_approved(
        memory,
        root_disk,
        user_data_disk,
        memory_peak,
        cpu_usage,
        top,
        fields,
    );
    lemma_approved_fields_fixed(fields);
}


/// A path component that names an entry of its directory: not empty, not `.`
/// or `..`, and without `/`.
pub open spec fn is_plain_component(c: Seq<char>) -> bool {
    &&& c.len() > 0
    &&& c != seq!['.']
    &&& c != parent_segment()
    &&& !c.contains('/')
}

proof fn lemma_segments_from_shape(s: Seq<char>, cur: Seq<char>)
    requires
        !cur.contains('/'),
    ensures
        forall|i: int|
            0 <= i < segments_from(s, cur).len() ==> {
                let c = #[trigger] segments_from(s, cur)[i];
                c.len() > 0 && c != seq!['.'] && !c.contains('/')
            },
    decreases s.len(),
{
    if s.len() > 0 {
        if s[0] == '/' {
            lemma_segments_from_shape(s.drop_first(), seq![]);
            let p = pending_segment(cur);
            let rest = segments_from(s.drop_first(), seq![]);
            assert forall|i: int| 0 <= i < segments_from(s, cur).len() implies {
                let c = #[trigger] segments_from(s, cur)[i];
                c.len() > 0 && c != seq!['.'] && !c.contains('/')
            } by {
                if i < p.len() {
                    assert(segments_from(s, cur)[i] == cur);
                } else {
                    assert(segments_from(s, cur)[i] == rest[i - p.len()]);
                }
            }
        } else {
            assert forall|k: int| 0 <= k < cur.push(s[0]).len() implies cur.push(s[0])[k] != '/' by {
                if k < cur.len() {
                    assert(cur.push(s[0])[k] == cur[k]);
                }
            }
            lemma_segments_from_shape(s.drop_first(), cur.push(s[0]));
            assert(segments_from(s, cur) == segments_from(s.drop_first(), cur.push(s[0])));
        }
    } else {
        assert(segments_from(s, cur) == pending_segment(cur));
        if pending_segment(cur).len() > 0 {
            assert(segments_from(s, cur)[0] == cur);
        }
    }
}

/// A path that `safe_cgroup_path` gives lies under the cgroup root: it is the
/// root followed by one or more plain components, none of which climbs out.
pub proof fn lemma_cgroup_path_stays_under_root(control_group: Seq<char>)
    ensures
        cgroup_path_of(control_group) matches Some(p) ==> exists|segments: Seq<Seq<char>>|
            {
                &&& segments.len() > 0
                &&& p == cgroup_root() + joined(segments)
                &&& forall|i: int| 0 <= i < segments.len() ==> is_plain_component(#[trigger] segments[i])
            },
{
    let t = trim(control_group);
    if t.len() > 0 && t[0] == '/' {
        let segments = path_segments(t.drop_first());
        lemma_segments_from_shape(t.drop_first(), seq![]);
        if segments.len() > 0 && !segments.contains(parent_segment()) {
            assert forall|i: int| 0 <= i < segments.len() implies is_plain_component(#[trigger] segments[i]) by {
                if segments[i] == parent_segment() {
                    assert(segments.contains(parent_segment()));
                }
            }
        }
    }
}


/// No two metrics share a key.
pub open spec fn distinct_metric_keys(m: Seq<(Seq<char>, MetricView)>) -> bool {
    forall|i: int, j: int| 0 <= i < j < m.len() ==> #[trigger] m[i].0 != #[trigger] m[j].0
}

proof fn lemma_distinct_concat(a: Seq<(Seq<char>, MetricView)>, b: Seq<(Seq<char>, MetricView)>)
    requires
        distinct_metric_keys(a),
        distinct_metric_keys(b),
        forall|i: int, j: int|
            0 <= i < a.len() && 0 <= j < b.len() ==> #[trigger] a[i].0 != #[trigger] b[j].0,
    ensures
        distinct_metric_keys(a + b),
{
    let c = a + b;
    assert forall|i: int, j: int| 0 <= i < j < c.len() implies #[trigger] c[i].0 != #[trigger] c[j].0 by {
        if j < a.len() {
            assert(c[i] == a[i] && c[j] == a[j]);
        } else if i >= a.len() {
            assert(c[i] == b[i - a.len()] && c[j] == b[j - a.len()]);
        } else {
            assert(c[i] == a[i] && c[j] == b[j - a.len()]);
        }
    }
}

/// The keys of metrics that are not process metrics: none begins with `t`,
/// and each has a length of its own.
pub open spec fn fixed_key_shape(k: Seq<char>, lengths: Set<nat>) -> bool {
    k.len() > 0 && k[0] != 't' && lengths.contains(k.len())
}

proof fn lemma_fixed_piece(m: Seq<(Seq<char>, MetricView)>, lengths: Set<nat>)
    requires
        forall|i: int| 0 <= i < m.len() ==> fixed_key_shape(#[trigger] m[i].0, lengths),
        forall|i: int, j: int| 0 <= i < j < m.len() ==> #[trigger] m[i].0.len() != #[trigger] m[j].0.len(),
    ensures
        distinct_metric_keys(m),
{
    assert forall|i: int, j: int| 0 <= i < j < m.len() implies #[trigger] m[i].0 != #[trigger] m[j].0 by {
        assert(m[i].0.len() != m[j].0.len());
    }
}

#[verifier::spinoff_prover]
#[verifier::rlimit(40)]
proof fn lemma_fixed_keys(
    memory: Option<MemorySnapshot>,
    root_disk: Option<DiskSnapshot>,
    user_data_disk: Option<DiskSnapshot>,
    memory_peak: Option<u64>,
    cpu_usage: Option<u64>,
) -> (x: Seq<(Seq<char>, MetricView)>)
    ensures
        x == memory_metrics(memory) + disk_metrics_of("root"@, root_disk) + disk_metrics_of(
            "user-data"@,
            user_data_disk,
        ) + match memory_peak {
            Some(peak) => seq![("failed-service-memory-peak-mib"@, MetricView::Unsigned(mib_of(peak)))],
            None => seq![],
        } + match cpu_usage {
            Some(ns) => seq![
                ("failed-service-cpu-usage-seconds"@, MetricView::TenthsOfSecond(tenths_of(ns))),
            ],
            None => seq![],
        },
        distinct_metric_keys(x),
        forall|i: int| 0 <= i < x.len() ==> (#[trigger] x[i].0).len() > 0 && x[i].0[0] != 't',
{
    reveal_strlit("memory-total-mib");
    reveal_strlit("memory-available-mib");
    reveal_strlit("swap-total-mib");
    reveal_strlit("swap-used-mib");
    reveal_strlit("root");
    reveal_strlit("user-data");
    reveal_strlit("-disk-total-mib");
    reveal_strlit("-disk-available-mib");
    reveal_strlit("-disk-used-percent");
    reveal_strlit("failed-service-memory-peak-mib");
    reveal_strlit("failed-service-cpu-usage-seconds");
    let a = memory_metrics(memory);
    let b = disk_metrics_of("root"@, root_disk);
    let c = disk_metrics_of("user-data"@, user_data_disk);
    let d: Seq<(Seq<char>, MetricView)> = match memory_peak {
        Some(peak) => seq![("failed-service-memory-peak-mib"@, MetricView::Unsigned(mib_of(peak)))],
        None => seq![],
    };
    let e: Seq<(Seq<char>, MetricView)> = match cpu_usage {
        Some(ns) => seq![
            ("failed-service-cpu-usage-seconds"@, MetricView::TenthsOfSecond(tenths_of(ns))),
        ],
        None => seq![],
    };
    let la = set![16nat, 20nat, 14nat, 13nat];
    let lb = set![19nat, 23nat, 22nat];
    let lc = set![24nat, 28nat, 27nat];
    let ld = set![30nat];
    let le = set![32nat];
    if a.len() > 0 {
        assert(a[0].0.len() == 16 && a[1].0.len() == 20 && a[2].0.len() == 14 && a[3].0.len() == 13);
        assert(a[0].0[0] == 'm' && a[1].0[0] == 'm' && a[2].0[0] == 's' && a[3].0[0] == 's');
    }
    lemma_fixed_piece(a, la);
    if b.len() > 0 {
        assert(b[0].0.len() == 19 && b[1].0.len() == 23 && b[2].0.len() == 22);
        assert(b[0].0[0] == 'r' && b[1].0[0] == 'r' && b[2].0[0] == 'r');
    }
    lemma_fixed_piece(b, lb);
    if c.len() > 0 {
        assert(c[0].0.len() == 24 && c[1].0.len() == 28 && c[2].0.len() == 27);
        assert(c[0].0[0] == 'u' && c[1].0[0] == 'u' && c[2].0[0] == 'u');
    }
    lemma_fixed_piece(c, lc);
    if d.len() > 0 {
        assert(d[0].0.len() == 30 && d[0].0[0] == 'f');
    }
    lemma_fixed_piece(d, ld);
    if e.len() > 0 {
        assert(e[0].0.len() == 32 && e[0].0[0] == 'f');
    }
    lemma_fixed_piece(e, le);
    lemma_distinct_concat(a, b);
    lemma_distinct_concat(a + b, c);
    lemma_distinct_concat(a + b + c, d);
    lemma_distinct_concat(a + b + c + d, e);
    let x = a + b + c + d + e;
    assert forall|i: int| 0 <= i < x.len() implies (#[trigger] x[i].0).len() > 0 && x[i].0[0] != 't' by {
        if i < a.len() {
            assert(x[i] == a[i]);
        } else if i < a.len() + b.len() {
            assert(x[i] == b[i - a.len()]);
        } else if i < a.len() + b.len() + c.len() {
            assert(x[i] == c[i - a.len() - b.len()]);
        } else if i < a.len() + b.len() + c.len() + d.len() {
            assert(x[i] == d[i - a.len() - b.len() - c.len()]);
        } else {
            assert(x[i] == e[i - a.len() - b.len() - c.len() - d.len()]);
        }
    }
    x
}

/// The key of the name of the process at `position`.
pub open spec fn process_name_key(position: nat) -> Seq<char> {
    "top-process-"@ + decimal(position)
}

/// The key of the resident memory of the process at `position`.
pub open spec fn process_rss_key(position: nat) -> Seq<char> {
    "top-process-"@ + decimal(position) + "-rss-mib"@
}

proof fn lemma_process_metrics_keys(top: Seq<(Seq<char>, u64)>)
    ensures
        process_metrics(top).len() == 2 * top.len(),
        forall|i: int|
            0 <= i < process_metrics(top).len() ==> (#[trigger] process_metrics(top)[i]).0 == if i % 2
                == 0 {
                process_name_key((i / 2 + 1) as nat)
            } else {
                process_rss_key((i / 2 + 1) as nat)
            },
    decreases top.len(),
{
    if top.len() > 0 {
        lemma_process_metrics_keys(top.drop_last());
        let rest = process_metrics(top.drop_last());
        let all = process_metrics(top);
        assert forall|i: int| 0 <= i < all.len() implies (#[trigger] all[i]).0 == if i % 2 == 0 {
            process_name_key((i / 2 + 1) as nat)
        } else {
            process_rss_key((i / 2 + 1) as nat)
        } by {
            if i < rest.len() {
                assert(all[i] == rest[i]);
            }
        }
    }
}

proof fn lemma_process_keys_differ(a: nat, b: nat, a_rss: bool, b_rss: bool)
    requires
        a >= 1,
        b >= 1,
        a != b || a_rss != b_rss,
    ensures
        (if a_rss { process_rss_key(a) } else { process_name_key(a) }) != (if b_rss {
            process_rss_key(b)
        } else {
            process_name_key(b)
        }),
{
    reveal_strlit("top-process-");
    reveal_strlit("-rss-mib");
    let p = "top-process-"@;
    let r = "-rss-mib"@;
    let da = decimal(a);
    let db = decimal(b);
    lemma_decimal_digits(a);
    lemma_decimal_digits(b);
    let ka = if a_rss { process_rss_key(a) } else { process_name_key(a) };
    let kb = if b_rss { process_rss_key(b) } else { process_name_key(b) };
    if ka == kb {
        if a_rss == b_rss {
            if a_rss {
                assert(ka.subrange(12, ka.len() - 8) =~= da);
                assert(kb.subrange(12, kb.len() - 8) =~= db);
            } else {
                assert(ka.subrange(12, ka.len() as int) =~= da);
                assert(kb.subrange(12, kb.len() as int) =~= db);
            }
        } else {
            let (short, long) = if a_rss { (da, db) } else { (db, da) };
            assert(p + short + r == p + long);
            assert(p.len() == 12 && r.len() == 8);
            let k: int = 12 + short.len() as int;
            assert(long.len() == short.len() + 8);
            assert((p + short + r)[k] == r[0]);
            assert((p + long)[k] == long[short.len() as int]);
            assert(is_digit(long[short.len() as int]));
        }
    }
}

proof fn lemma_process_keys_distinct(top: Seq<(Seq<char>, u64)>)
    ensures
        distinct_metric_keys(process_metrics(top)),
        forall|i: int|
            0 <= i < process_metrics(top).len() ==> (#[trigger] process_metrics(top)[i]).0.len() > 0
                && process_metrics(top)[i].0[0] == 't',
{
    lemma_process_metrics_keys(top);
    reveal_strlit("top-process-");
    let m = process_metrics(top);
    assert forall|i: int, j: int| 0 <= i < j < m.len() implies #[trigger] m[i].0 != #[trigger] m[j].0 by {
        lemma_process_keys_differ((i / 2 + 1) as nat, (j / 2 + 1) as nat, i % 2 == 1, j % 2 == 1);
    }
    assert forall|i: int| 0 <= i < m.len() implies (#[trigger] m[i]).0.len() > 0 && m[i].0[0] == 't' by {
        let k = m[i].0;
        assert(k[0] == "top-process-"@[0]);
    }
}

/// No two metrics that `collect` gathers share a key, so the map they are
/// turned into holds every one of them.
pub proof fn lemma_metric_keys_distinct(
    memory: Option<MemorySnapshot>,
    root_disk: Option<DiskSnapshot>,
    user_data_disk: Option<DiskSnapshot>,
    memory_peak: Option<u64>,
    cpu_usage: Option<u64>,
    top: Seq<(Seq<char>, u64)>,
)
    ensures
        distinct_metric_keys(
            metrics_of(memory, root_disk, user_data_disk, memory_peak, cpu_usage, top),
        ),
{
    let x = lemma_fixed_keys(memory, root_disk, user_data_disk, memory_peak, cpu_usage);
    let f = process_metrics(top);
    lemma_process_keys_distinct(top);
    assert forall|i: int, j: int| 0 <= i < x.len() && 0 <= j < f.len() implies #[trigger] x[i].0
        != #[trigger] f[j].0 by {
        assert(x[i].0[0] != 't');
        assert(f[j].0[0] == 't');
    }
    lemma_distinct_concat(x, f);
    assert(metrics_of(memory, root_disk, user_data_disk, memory_peak, cpu_usage, top) =~= x + f);
}


proof fn lemma_segments_from_slash_end(x: Seq<char>, cur: Seq<char>)
    ensures
        segments_from(x.push('/'), cur) == segments_from(x, cur),
    decreases x.len(),
{
    let xs = x.push('/');
    assert(xs[0] == if x.len() > 0 { x[0] } else { '/' });
    if x.len() == 0 {
        assert(xs.drop_first() =~= Seq::<char>::empty());
        assert(segments_from(Seq::<char>::empty(), seq![]) =~= Seq::<Seq<char>>::empty());
        assert(pending_segment(cur) + Seq::<Seq<char>>::empty() =~= pending_segment(cur));
    } else {
        assert(xs.drop_first() =~= x.drop_first().push('/'));
        if x[0] == '/' {
            lemma_segments_from_slash_end(x.drop_first(), seq![]);
        } else {
            lemma_segments_from_slash_end(x.drop_first(), cur.push(x[0]));
        }
    }
}

proof fn lemma_segments_from_concat(a: Seq<char>, b: Seq<char>, cur: Seq<char>)
    requires
        a.len() > 0,
        a.last() == '/',
    ensures
        segments_from(a + b, cur) == segments_from(a, cur) + segments_from(b, seq![]),
    decreases a.len(),
{
    assert((a + b)[0] == a[0]);
    assert((a + b).drop_first() =~= a.drop_first() + b);
    if a.len() == 1 {
        assert(a.drop_first() + b =~= b);
        assert(segments_from(a.drop_first(), seq![]) == Seq::<Seq<char>>::empty());
        assert(segments_from(a, cur) =~= pending_segment(cur));
    } else {
        assert(a.drop_first().last() == a.last());
        if a[0] == '/' {
            lemma_segments_from_concat(a.drop_first(), b, seq![]);
            assert(pending_segment(cur) + (segments_from(a.drop_first(), seq![]) + segments_from(
                b,
                seq![],
            )) =~= pending_segment(cur) + segments_from(a.drop_first(), seq![]) + segments_from(
                b,
                seq![],
            ));
        } else {
            lemma_segments_from_concat(a.drop_first(), b, cur.push(a[0]));
        }
    }
}

proof fn lemma_segments_from_single(x: Seq<char>, cur: Seq<char>)
    requires
        !x.contains('/'),
    ensures
        segments_from(x, cur) == pending_segment(cur + x),
    decreases x.len(),
{
    if x.len() == 0 {
        assert(cur + x =~= cur);
    } else {
        assert(x[0] != '/') by {
            if x[0] == '/' {
                assert(x.contains('/'));
            }
        }
        assert(!x.drop_first().contains('/')) by {
            if x.drop_first().contains('/') {
                let k = choose|k: int| 0 <= k < x.drop_first().len() && x.drop_first()[k] == '/';
                assert(x[k + 1] == '/');
            }
        }
        lemma_segments_from_single(x.drop_first(), cur.push(x[0]));
        assert(cur.push(x[0]) + x.drop_first() =~= cur + x);
    }
}

proof fn lemma_joined_segments(segments: Seq<Seq<char>>)
    requires
        segments.len() > 0,
        forall|i: int| 0 <= i < segments.len() ==> is_plain_component(#[trigger] segments[i]),
    ensures
        joined(segments).len() > 0,
        joined(segments)[0] == '/',
        joined(segments).last() == segments.last().last(),
        path_segments(joined(segments).drop_first()) == segments,
    decreases segments.len(),
{
    let last = segments.last();
    assert(is_plain_component(segments[segments.len() - 1]));
    lemma_segments_from_single(last, seq![]);
    assert(Seq::<char>::empty() + last =~= last);
    let j = joined(segments);
    if segments.len() == 1 {
        assert(segments.drop_last() =~= Seq::<Seq<char>>::empty());
        assert(joined(segments.drop_last()) =~= Seq::<char>::empty());
        assert(j == joined(segments.drop_last()).push('/') + segments.last());
        assert(j =~= seq!['/'] + last);
        assert(j.drop_first() =~= last);
        assert(segments =~= seq![last]);
    } else {
        let init = segments.drop_last();
        assert forall|i: int| 0 <= i < init.len() implies is_plain_component(#[trigger] init[i]) by {
            assert(init[i] == segments[i]);
        }
        lemma_joined_segments(init);
        let ji = joined(init);
        assert(j =~= ji.push('/') + last);
        assert(j.drop_first() =~= ji.drop_first().push('/') + last);
        lemma_segments_from_concat(ji.drop_first().push('/'), last, seq![]);
        lemma_segments_from_slash_end(ji.drop_first(), seq![]);
        assert(init.push(last) =~= segments);
        assert(init + seq![last] =~= segments);
    }
}

/// A control group that is absolute and made of plain components, of any
/// number, gives the path of those components under the cgroup root.
pub proof fn lemma_cgroup_path_complete(segments: Seq<Seq<char>>)
    requires
        segments.len() > 0,
        forall|i: int| 0 <= i < segments.len() ==> is_plain_component(#[trigger] segments[i]),
        !is_whitespace(segments.last().last()),
    ensures
        cgroup_path_of(joined(segments)) == Some(cgroup_root() + joined(segments)),
{
    lemma_joined_segments(segments);
    let j = joined(segments);
    assert(trim_start(j) == j);
    assert(trim_end(j) == j);
    assert(!segments.contains(parent_segment())) by {
        if segments.contains(parent_segment()) {
            let k = choose|k: int| 0 <= k < segments.len() && segments[k] == parent_segment();
            assert(is_plain_component(segments[k]));
        }
    }
}


proof fn lemma_process_metrics_entries(top: Seq<(Seq<char>, u64)>)
    ensures
        process_metrics(top).len() == 2 * top.len(),
        forall|i: int|
            0 <= i < process_metrics(top).len() ==> #[trigger] process_metrics(top)[i] == if i % 2
                == 0 {
                (process_name_key((i / 2 + 1) as nat), MetricView::Text(top[i / 2].0))
            } else {
                (process_rss_key((i / 2 + 1) as nat), MetricView::Unsigned(mib_of(top[i / 2].1)))
            },
    decreases top.len(),
{
    if top.len() > 0 {
        lemma_process_metrics_entries(top.drop_last());
        let rest = process_metrics(top.drop_last());
        let all = process_metrics(top);
        assert forall|i: int| 0 <= i < all.len() implies #[trigger] all[i] == if i % 2 == 0 {
            (process_name_key((i / 2 + 1) as nat), MetricView::Text(top[i / 2].0))
        } else {
            (process_rss_key((i / 2 + 1) as nat), MetricView::Unsigned(mib_of(top[i / 2].1)))
        } by {
            if i < rest.len() {
                assert(all[i] == rest[i]);
                assert(top.drop_last()[i / 2] == top[i / 2]);
            }
        }
    }
}

/// The reading that a metric key of the system names, as that metric gives it.
pub open spec fn fixed_reading(
    memory: Option<MemorySnapshot>,
    root_disk: Option<DiskSnapshot>,
    user_data_disk: Option<DiskSnapshot>,
    memory_peak: Option<u64>,
    cpu_usage: Option<u64>,
    key: Seq<char>,
) -> Option<MetricView> {
    if key == "memory-total-mib"@ {
        match memory {
            Some(m) => Some(MetricView::Unsigned(mib_of(m.total_bytes))),
            None => None,
        }
    } else if key == "memory-available-mib"@ {
        match memory {
            Some(m) => Some(MetricView::Unsigned(mib_of(m.available_bytes))),
            None => None,
        }
    } else if key == "swap-total-mib"@ {
        match memory {
            Some(m) => Some(MetricView::Unsigned(mib_of(m.swap_total_bytes))),
            None => None,
        }
    } else if key == "swap-used-mib"@ {
        match memory {
            Some(m) => Some(MetricView::Unsigned(mib_of(m.swap_used_bytes))),
            None => None,
        }
    } else if key == "root-disk-total-mib"@ {
        match root_disk {
            Some(d) => Some(MetricView::Unsigned(mib_of(d.total_bytes))),
            None => None,
        }
    } else if key == "root-disk-available-mib"@ {
        match root_disk {
            Some(d) => Some(MetricView::Unsigned(mib_of(d.available_bytes))),
            None => None,
        }
    } else if key == "root-disk-used-percent"@ {
        match root_disk {
            Some(d) => Some(MetricView::Unsigned(d.used_percent)),
            None => None,
        }
    } else if key == "user-data-disk-total-mib"@ {
        match user_data_disk {
            Some(d) => Some(MetricView::Unsigned(mib_of(d.total_bytes))),
            None => None,
        }
    } else if key == "user-data-disk-available-mib"@ {
        match user_data_disk {
            Some(d) => Some(MetricView::Unsigned(mib_of(d.available_bytes))),
            None => None,
        }
    } else if key == "user-data-disk-used-percent"@ {
        match user_data_disk {
            Some(d) => Some(MetricView::Unsigned(d.used_percent)),
            None => None,
        }
    } else if key == "failed-service-memory-peak-mib"@ {
        match memory_peak {
            Some(peak) => Some(MetricView::Unsigned(mib_of(peak))),
            None => None,
        }
    } else if key == "failed-service-cpu-usage-seconds"@ {
        match cpu_usage {
            Some(ns) => Some(MetricView::TenthsOfSecond(tenths_of(ns))),
            None => None,
        }
    } else {
        None
    }
}

/// The reading that a process metric key names: the name or the resident
/// memory of the process at the position the key gives.
pub open spec fn process_reading(top: Seq<(Seq<char>, u64)>, key: Seq<char>) -> Option<MetricView> {
    if exists|n: nat| 1 <= n <= top.len() && key == #[trigger] process_name_key(n) {
        let n = choose|n: nat| 1 <= n <= top.len() && key == #[trigger] process_name_key(n);
        Some(MetricView::Text(top[n - 1].0))
    } else if exists|n: nat| 1 <= n <= top.len() && key == #[trigger] process_rss_key(n) {
        let n = choose|n: nat| 1 <= n <= top.len() && key == #[trigger] process_rss_key(n);
        Some(MetricView::Unsigned(mib_of(top[n - 1].1)))
    } else {
        None
    }
}

/// The reading that a metric key names.
pub open spec fn reading_of_key(
    memory: Option<MemorySnapshot>,
    root_disk: Option<DiskSnapshot>,
    user_data_disk: Option<DiskSnapshot>,
    memory_peak: Option<u64>,
    cpu_usage: Option<u64>,
    top: Seq<(Seq<char>, u64)>,
    key: Seq<char>,
) -> Option<MetricView> {
    match fixed_reading(memory, root_disk, user_data_disk, memory_peak, cpu_usage, key) {
        Some(v) => Some(v),
        None => process_reading(top, key),
    }
}

proof fn lemma_fixed_literals()
    ensures
        "memory-total-mib"@.len() == 16 && "memory-total-mib"@[0] == 'm',
        "memory-available-mib"@.len() == 20 && "memory-available-mib"@[0] == 'm',
        "swap-total-mib"@.len() == 14 && "swap-total-mib"@[0] == 's',
        "swap-used-mib"@.len() == 13 && "swap-used-mib"@[0] == 's',
        "root-disk-total-mib"@.len() == 19 && "root-disk-total-mib"@[0] == 'r',
        "root-disk-available-mib"@.len() == 23 && "root-disk-available-mib"@[0] == 'r',
        "root-disk-used-percent"@.len() == 22 && "root-disk-used-percent"@[0] == 'r',
        "user-data-disk-total-mib"@.len() == 24 && "user-data-disk-total-mib"@[0] == 'u',
        "user-data-disk-available-mib"@.len() == 28 && "user-data-disk-available-mib"@[0] == 'u',
        "user-data-disk-used-percent"@.len() == 27 && "user-data-disk-used-percent"@[0] == 'u',
        "failed-service-memory-peak-mib"@.len() == 30 && "failed-service-memory-peak-mib"@[0] == 'f',
        "failed-service-cpu-usage-seconds"@.len() == 32 && "failed-service-cpu-usage-seconds"@[0]
            == 'f',
        "root"@ + "-disk-total-mib"@ == "root-disk-total-mib"@,
        "root"@ + "-disk-available-mib"@ == "root-disk-available-mib"@,
        "root"@ + "-disk-used-percent"@ == "root-disk-used-percent"@,
        "user-data"@ + "-disk-total-mib"@ == "user-data-disk-total-mib"@,
        "user-data"@ + "-disk-available-mib"@ == "user-data-disk-available-mib"@,
        "user-data"@ + "-disk-used-percent"@ == "user-data-disk-used-percent"@,
{
    lemma_disk_keys_approved(None);
    reveal_strlit("memory-total-mib");
    reveal_strlit("memory-available-mib");
    reveal_strlit("swap-total-mib");
    reveal_strlit("swap-used-mib");
    reveal_strlit("root-disk-total-mib");
    reveal_strlit("root-disk-available-mib");
    reveal_strlit("root-disk-used-percent");
    reveal_strlit("user-data-disk-total-mib");
    reveal_strlit("user-data-disk-available-mib");
    reveal_strlit("user-data-disk-used-percent");
    reveal_strlit("failed-service-memory-peak-mib");
    reveal_strlit("failed-service-cpu-usage-seconds");
    reveal_strlit("root");
    reveal_strlit("user-data");
    reveal_strlit("-disk-total-mib");
    reveal_strlit("-disk-available-mib");
    reveal_strlit("-disk-used-percent");
    assert("root"@ + "-disk-total-mib"@ =~= "root-disk-total-mib"@);
    assert("root"@ + "-disk-available-mib"@ =~= "root-disk-available-mib"@);
    assert("root"@ + "-disk-used-percent"@ =~= "root-disk-used-percent"@);
    assert("user-data"@ + "-disk-total-mib"@ =~= "user-data-disk-total-mib"@);
    assert("user-data"@ + "-disk-available-mib"@ =~= "user-data-disk-available-mib"@);
    assert("user-data"@ + "-disk-used-percent"@ =~= "user-data-disk-used-percent"@);
}

proof fn lemma_process_key_shape(n: nat, rss: bool)
    requires
        n >= 1,
    ensures
        (if rss { process_rss_key(n) } else { process_name_key(n) }).len() > 0,
        (if rss { process_rss_key(n) } else { process_name_key(n) })[0] == 't',
{
    reveal_strlit("top-process-");
}

proof fn lemma_process_reading_of_entry(top: Seq<(Seq<char>, u64)>, n: nat, rss: bool)
    requires
        1 <= n <= top.len(),
    ensures
        process_reading(top, if rss { process_rss_key(n) } else { process_name_key(n) }) == Some(
            if rss {
                MetricView::Unsigned(mib_of(top[n - 1].1))
            } else {
                MetricView::Text(top[n - 1].0)
            },
        ),
{
    let key = if rss { process_rss_key(n) } else { process_name_key(n) };
    if rss {
        assert forall|m: nat| 1 <= m <= top.len() implies key != #[trigger] process_name_key(m) by {
            lemma_process_keys_differ(n, m, true, false);
        }
        assert(key == process_rss_key(n));
        let c = choose|m: nat| 1 <= m <= top.len() && key == #[trigger] process_rss_key(m);
        if c != n {
            lemma_process_keys_differ(c, n, true, true);
        }
    } else {
        assert(key == process_name_key(n));
        let c = choose|m: nat| 1 <= m <= top.len() && key == #[trigger] process_name_key(m);
        if c != n {
            lemma_process_keys_differ(c, n, false, false);
        }
    }
}

proof fn lemma_fixed_reading_of_process_key(
    memory: Option<MemorySnapshot>,
    root_disk: Option<DiskSnapshot>,
    user_data_disk: Option<DiskSnapshot>,
    memory_peak: Option<u64>,
    cpu_usage: Option<u64>,
    key: Seq<char>,
)
    requires
        key.len() > 0,
        key[0] == 't',
    ensures
        fixed_reading(memory, root_disk, user_data_disk, memory_peak, cpu_usage, key) is None,
{
    lemma_fixed_literals();
}

/// Each metric that `collect` gathers carries the reading its key names, and
/// every reading that the system showed is carried by the metric named after it.
#[verifier::spinoff_prover]
#[verifier::rlimit(60)]
pub proof fn lemma_metrics_carry_their_readings(
    memory: Option<MemorySnapshot>,
    root_disk: Option<DiskSnapshot>,
    user_data_disk: Option<DiskSnapshot>,
    memory_peak: Option<u64>,
    cpu_usage: Option<u64>,
    top: Seq<(Seq<char>, u64)>,
)
    ensures
        forall|i: int|
            0 <= i < metrics_of(memory, root_disk, user_data_disk, memory_peak, cpu_usage, top).len()
                ==> reading_of_key(
                memory,
                root_disk,
                user_data_disk,
                memory_peak,
                cpu_usage,
                top,
                (#[trigger] metrics_of(
                    memory,
                    root_disk,
                    user_data_disk,
                    memory_peak,
                    cpu_usage,
                    top,
                )[i]).0,
            ) == Some(
                metrics_of(memory, root_disk, user_data_disk, memory_peak, cpu_usage, top)[i].1,
            ),
        forall|key: Seq<char>|
            #[trigger] reading_of_key(
                memory,
                root_disk,
                user_data_disk,
                memory_peak,
                cpu_usage,
                top,
                key,
            ) is Some ==> metrics_of(
                memory,
                root_disk,
                user_data_disk,
                memory_peak,
                cpu_usage,
                top,
            ).contains(
                (
                    key,
                    reading_of_key(
                        memory,
                        root_disk,
                        user_data_disk,
                        memory_peak,
                        cpu_usage,
                        top,
                        key,
                    )->0,
                ),
            ),
{
    lemma_fixed_literals();
    lemma_process_metrics_entries(top);
    let m = metrics_of(memory, root_disk, user_data_disk, memory_peak, cpu_usage, top);
    let a = memory_metrics(memory);
    let b = disk_metrics_of("root"@, root_disk);
    let c = disk_metrics_of("user-data"@, user_data_disk);
    let d: Seq<(Seq<char>, MetricView)> = match memory_peak {
        Some(peak) => seq![("failed-service-memory-peak-mib"@, MetricView::Unsigned(mib_of(peak)))],
        None => seq![],
    };
    let e: Seq<(Seq<char>, MetricView)> = match cpu_usage {
        Some(ns) => seq![
            ("failed-service-cpu-usage-seconds"@, MetricView::TenthsOfSecond(tenths_of(ns))),
        ],
        None => seq![],
    };
    let f = process_metrics(top);
    assert(m =~= a + b + c + d + e + f);
    let x = a + b + c + d + e;
    assert(m =~= x + f);
    assert forall|i: int| 0 <= i < m.len() implies reading_of_key(
        memory,
        root_disk,
        user_data_disk,
        memory_peak,
        cpu_usage,
        top,
        (#[trigger] m[i]).0,
    ) == Some(m[i].1) by {
        if i < x.len() {
            assert(m[i] == x[i]);
            if i < a.len() {
                assert(x[i] == a[i]);
            } else if i < a.len() + b.len() {
                assert(x[i] == b[i - a.len()]);
            } else if i < a.len() + b.len() + c.len() {
                assert(x[i] == c[i - a.len() - b.len()]);
            } else if i < a.len() + b.len() + c.len() + d.len() {
                assert(x[i] == d[i - a.len() - b.len() - c.len()]);
            } else {
                assert(x[i] == e[i - a.len() - b.len() - c.len() - d.len()]);
            }
        } else {
            let k = i - x.len();
            assert(m[i] == f[k]);
            let n = (k / 2 + 1) as nat;
            lemma_process_key_shape(n, k % 2 == 1);
            lemma_fixed_reading_of_process_key(
                memory,
                root_disk,
                user_data_disk,
                memory_peak,
                cpu_usage,
                f[k].0,
            );
            lemma_process_reading_of_entry(top, n, k % 2 == 1);
        }
    }
    assert forall|key: Seq<char>| #[trigger] reading_of_key(
        memory,
        root_disk,
        user_data_disk,
        memory_peak,
        cpu_usage,
        top,
        key,
    ) is Some implies m.contains(
        (key, reading_of_key(memory, root_disk, user_data_disk, memory_peak, cpu_usage, top, key)->0),
    ) by {
        let v = reading_of_key(memory, root_disk, user_data_disk, memory_peak, cpu_usage, top, key)->0;
        let al = a.len() as int;
        let bl = b.len() as int;
        let cl = c.len() as int;
        let dl = d.len() as int;
        let el = e.len() as int;
        if fixed_reading(memory, root_disk, user_data_disk, memory_peak, cpu_usage, key) is Some {
            if key == "memory-total-mib"@ {
                assert(m[0] == (key, v));
            } else if key == "memory-available-mib"@ {
                assert(m[1] == (key, v));
            } else if key == "swap-total-mib"@ {
                assert(m[2] == (key, v));
            } else if key == "swap-used-mib"@ {
                assert(m[3] == (key, v));
            } else if key == "root-disk-total-mib"@ {
                assert(m[al] == (key, v));
            } else if key == "root-disk-available-mib"@ {
                assert(m[al + 1] == (key, v));
            } else if key == "root-disk-used-percent"@ {
                assert(m[al + 2] == (key, v));
            } else if key == "user-data-disk-total-mib"@ {
                assert(m[al + bl] == (key, v));
            } else if key == "user-data-disk-available-mib"@ {
                assert(m[al + bl + 1] == (key, v));
            } else if key == "user-data-disk-used-percent"@ {
                assert(m[al + bl + 2] == (key, v));
            } else if key == "failed-service-memory-peak-mib"@ {
                assert(m[al + bl + cl] == (key, v));
            } else {
                assert(m[al + bl + cl + dl] == (key, v));
            }
        } else {
            let xl = al + bl + cl + dl + el;
            if exists|n: nat| 1 <= n <= top.len() && key == #[trigger] process_name_key(n) {
                let n = choose|n: nat| 1 <= n <= top.len() && key == #[trigger] process_name_key(n);
                let k = 2 * (n - 1);
                assert(k / 2 + 1 == n && k % 2 == 0);
                assert(f[k] == (key, v));
                assert(m[xl + k] == f[k]);
            } else {
                let n = choose|n: nat| 1 <= n <= top.len() && key == #[trigger] process_rss_key(n);
                let k = 2 * (n - 1) + 1;
                assert(k / 2 + 1 == n && k % 2 == 1);
                assert(f[k] == (key, v));
                assert(m[xl + k] == f[k]);
            }
        }
    }
}


/// Whitespace around a control group changes nothing.
pub proof fn lemma_cgroup_path_ignores_surrounding_whitespace(
    w1: Seq<char>,
    control_group: Seq<char>,
    w2: Seq<char>,
)
    requires
        all_whitespace(w1),
        all_whitespace(w2),
    ensures
        cgroup_path_of(w1 + control_group + w2) == cgroup_path_of(control_group),
{
    lemma_trim_pad(w1, control_group, w2);
}

} // verus!
