use vstd::prelude::*;
use crate::blocks::BLOCKS_PER_DAY;
use crate::text::{
    chars_of, lemma_digits_value_nonneg, parse_unsigned, spec_all_digits, spec_digits_value, spec_is_digit, spec_lower, spec_parse_unsigned,
    spec_unsigned_body, string_of, to_lower,
};

verus! {

/// Blocks in the last, partial interval of the last interval file.
pub const FINAL_PARTIAL_BLOCKS: u64 = 5808;

/// The name of the last interval file.
pub const FINAL_INTERVAL_FILE: &'static str = "19857392_20000000.parquet";

/// Whether `p` occurs in `s` at index `i`.
pub open spec fn spec_matches_at(s: Seq<char>, p: Seq<char>, i: int) -> bool {
    0 <= i && i + p.len() <= s.len() && s.subrange(i, i + p.len()) == p
}

/// The first index, from `i` on, where `p` occurs in `s`.
pub open spec fn spec_find_from(s: Seq<char>, p: Seq<char>, i: int) -> Option<int>
    decreases s.len() + 1 - i,
{
    if i < 0 || i + p.len() > s.len() {
        None
    } else if spec_matches_at(s, p, i) {
        Some(i)
    } else {
        spec_find_from(s, p, i + 1)
    }
}

/// The second piece of `s` split at the (non-empty) pattern `p`
/// (`s.split(p).nth(1)`): the text between the first occurrence of `p` and
/// the next one, or the end.
pub open spec fn spec_second_piece(s: Seq<char>, p: Seq<char>) -> Option<Seq<char>> {
    match spec_find_from(s, p, 0) {
        None => None,
        Some(i) => {
            let st = i + p.len();
            match spec_find_from(s, p, st) {
                Some(j) => Some(s.subrange(st, j)),
                None => Some(s.subrange(st, s.len() as int)),
            }
        },
    }
}

/// `s` with every trailing copy of the (non-empty) suffix `p` removed
/// (`s.trim_end_matches(p)`).
pub open spec fn spec_trim_end(s: Seq<char>, p: Seq<char>) -> Seq<char>
    decreases s.len(),
{
    if p.len() > 0 && p.len() <= s.len() && s.subrange(s.len() - p.len(), s.len() as int) == p {
        spec_trim_end(s.subrange(0, s.len() - p.len()), p)
    } else {
        s
    }
}

/// The text of `s` before the first `c` (`s.split(c).next()`).
pub open spec fn spec_before_first(s: Seq<char>, c: char) -> Seq<char>
    decreases s.len(),
{
    if s.len() == 0 {
        s
    } else if s[0] == c {
        Seq::empty()
    } else {
        seq![s[0]] + spec_before_first(s.drop_first(), c)
    }
}

/// The text of `s` after the last `c` (`s.split(c).last()`).
pub open spec fn spec_after_last(s: Seq<char>, c: char) -> Seq<char>
    decreases s.len(),
{
    if s.len() == 0 {
        s
    } else if s.last() == c {
        Seq::empty()
    } else {
        spec_after_last(s.drop_last(), c).push(s.last())
    }
}

/// How many times `c` occurs in `s`.
pub open spec fn spec_count(s: Seq<char>, c: char) -> nat
    decreases s.len(),
{
    if s.len() == 0 {
        0
    } else {
        spec_count(s.drop_last(), c) + if s.last() == c { 1nat } else { 0nat }
    }
}

/// The first block recorded in the name of an interval file: the number
/// before the first `_` of what follows `intervals/`, once the `.parquet`
/// endings are removed.
pub open spec fn spec_interval_file_start(path: Seq<char>) -> Option<u64> {
    match spec_second_piece(path, "intervals/"@) {
        None => None,
        Some(name) => match spec_parse_unsigned(
            spec_before_first(spec_trim_end(name, ".parquet"@), '_'),
            u64::MAX as int,
        ) {
            Some(v) => Some(v as u64),
            None => None,
        },
    }
}

/// The index of the first `c` in `cs[from..to]`, if any.
fn find_char(cs: &Vec<char>, c: char, from: usize, to: usize) -> (r: Option<usize>)
    requires
        from <= to <= cs.len(),
    ensures
        match r {
            Some(i) => from <= i < to && cs@[i as int] == c
                && forall|q: int| from <= q < i ==> cs@[q] != c,
            None => forall|q: int| from <= q < to ==> cs@[q] != c,
        },
{
    let mut i = from;
    while i < to
        invariant
            from <= i <= to <= cs.len(),
            forall|q: int| from <= q < i ==> cs@[q] != c,
        decreases to - i,
    {
        if cs[i] == c {
            return Some(i);
        }
        i = i + 1;
    }
    None
}

/// The text before the first `c` is what precedes its first occurrence.
proof fn lemma_before_first(s: Seq<char>, c: char, i: int)
    requires
        0 <= i <= s.len(),
        forall|q: int| 0 <= q < i ==> s[q] != c,
        i < s.len() ==> s[i] == c,
    ensures
        spec_before_first(s, c) == s.subrange(0, i),
    decreases s.len(),
{
    if s.len() == 0 {
    } else if i == 0 {
    } else {
        lemma_before_first(s.drop_first(), c, i - 1);
        assert(seq![s[0]] + s.drop_first().subrange(0, i - 1) =~= s.subrange(0, i));
    }
}

/// The text after the last `c` is what follows its last occurrence.
proof fn lemma_after_last(s: Seq<char>, c: char, i: int)
    requires
        0 <= i <= s.len(),
        forall|q: int| i <= q < s.len() ==> s[q] != c,
        i > 0 ==> s[i - 1] == c,
    ensures
        spec_after_last(s, c) == s.subrange(i, s.len() as int),
    decreases s.len(),
{
    if s.len() == 0 {
    } else if i == s.len() {
        assert(s.subrange(i, s.len() as int) =~= Seq::<char>::empty());
    } else {
        lemma_after_last(s.drop_last(), c, i);
        assert(s.drop_last().subrange(i, s.len() - 1).push(s.last()) =~= s.subrange(i, s.len() as int));
    }
}

/// The index where the last `c` of `cs[0..to]` ends (zero if none).
fn after_last_char(cs: &Vec<char>, c: char, to: usize) -> (r: usize)
    requires
        to <= cs.len(),
    ensures
        r <= to,
        cs@.subrange(r as int, to as int) == spec_after_last(cs@.subrange(0, to as int), c),
        r > 0 ==> cs@[r - 1] == c,
        forall|q: int| r <= q < to ==> cs@[q] != c,
{
    let mut i = to;
    while i > 0 && cs[i - 1] != c
        invariant
            i <= to <= cs.len(),
            forall|q: int| i <= q < to ==> cs@[q] != c,
        decreases i,
    {
        i = i - 1;
    }
    proof {
        lemma_after_last(cs@.subrange(0, to as int), c, i as int);
        assert(cs@.subrange(0, to as int).subrange(i as int, to as int) =~= cs@.subrange(i as int, to as int));
    }
    i
}

/// Whether `p` occurs in `cs` at index `i`.
fn matches_at(cs: &Vec<char>, p: &Vec<char>, i: usize) -> (r: bool)
    ensures
        r == spec_matches_at(cs@, p@, i as int),
{
    if i > cs.len() || p.len() > cs.len() - i {
        return false;
    }
    let mut k: usize = 0;
    while k < p.len()
        invariant
            k <= p.len(),
            i + p.len() <= cs.len(),
            forall|q: int| 0 <= q < k ==> cs@[i + q] == p@[q],
        decreases p.len() - k,
    {
        if cs[i + k] != p[k] {
            assert(cs@.subrange(i as int, i + p.len())[k as int] != p@[k as int]);
            return false;
        }
        k = k + 1;
    }
    assert(cs@.subrange(i as int, i + p.len()) =~= p@);
    true
}

/// The first index, from `from` on, where `p` occurs in `cs`.
fn find_from(cs: &Vec<char>, p: &Vec<char>, from: usize) -> (r: Option<usize>)
    requires
        from <= cs.len(),
    ensures
        match r {
            Some(i) => spec_find_from(cs@, p@, from as int) == Some(i as int),
            None => spec_find_from(cs@, p@, from as int) is None,
        },
{
    let mut i = from;
    while i < cs.len()
        invariant
            from <= i <= cs.len(),
            spec_find_from(cs@, p@, from as int) == spec_find_from(cs@, p@, i as int),
        decreases cs.len() - i,
    {
        if p.len() > cs.len() - i {
            return None;
        }
        if matches_at(cs, p, i) {
            return Some(i);
        }
        i = i + 1;
    }
    if p.len() == 0 {
        assert(spec_matches_at(cs@, p@, i as int)) by {
            assert(cs@.subrange(i as int, i as int) =~= p@);
        }
        Some(i)
    } else {
        None
    }
}

/// Whether `cs[from..to]` ends with `p`.
fn ends_with(cs: &Vec<char>, from: usize, to: usize, p: &Vec<char>) -> (r: bool)
    requires
        from <= to <= cs.len(),
    ensures
        r == (p.len() <= to - from && cs@.subrange(from as int, to as int).subrange(
            to - from - p.len(),
            to - from,
        ) == p@),
{
    if p.len() > to - from {
        return false;
    }
    let start = to - p.len();
    let mut k: usize = 0;
    while k < p.len()
        invariant
            k <= p.len(),
            start == to - p.len(),
            from <= start,
            to <= cs.len(),
            forall|q: int| 0 <= q < k ==> cs@[start + q] == p@[q],
        decreases p.len() - k,
    {
        if cs[start + k] != p[k] {
            assert(cs@.subrange(from as int, to as int).subrange(to - from - p.len(), to - from)[k as int]
                != p@[k as int]);
            return false;
        }
        k = k + 1;
    }
    assert(cs@.subrange(from as int, to as int).subrange(to - from - p.len(), to - from) =~= p@);
    true
}

/// The end of `cs[from..to]` once every trailing copy of `p` is removed.
fn trim_end(cs: &Vec<char>, from: usize, to: usize, p: &Vec<char>) -> (r: usize)
    requires
        from <= to <= cs.len(),
        p.len() > 0,
    ensures
        from <= r <= to,
        cs@.subrange(from as int, r as int) == spec_trim_end(cs@.subrange(from as int, to as int), p@),
{
    let mut end = to;
    while ends_with(cs, from, end, p)
        invariant
            from <= end <= to <= cs.len(),
            p.len() > 0,
            spec_trim_end(cs@.subrange(from as int, end as int), p@)
                == spec_trim_end(cs@.subrange(from as int, to as int), p@),
        decreases end,
    {
        proof {
            let s = cs@.subrange(from as int, end as int);
            assert(s.subrange(0, s.len() - p.len()) =~= cs@.subrange(from as int, end - p.len()));
        }
        end = end - p.len();
    }
    end
}

/// The first block recorded in the name of an interval file (see
/// `spec_interval_file_start`).
pub fn interval_file_start(file_path: &str) -> (r: Option<u64>)
    ensures
        r == spec_interval_file_start(file_path@),
{
    let cs = chars_of(file_path);
    let marker = chars_of("intervals/");
    let suffix = chars_of(".parquet");
    proof {
        reveal_strlit("intervals/");
        reveal_strlit(".parquet");
    }
    let first = match find_from(&cs, &marker, 0) {
        None => return None,
        Some(i) => i,
    };
    proof {
        lemma_find_matches(cs@, marker@, 0, first as int);
        assert(spec_matches_at(cs@, marker@, first as int));
        assert(first + marker@.len() <= cs@.len());
    }
    let n = cs.len();
    let m = marker.len();
    assert(first + m <= n);
    let st = first + m;
    let end = match find_from(&cs, &marker, st) {
        Some(j) => {
            proof {
                lemma_find_matches(cs@, marker@, st as int, j as int);
            }
            j
        },
        None => n,
    };
    assert(st <= end <= n);
    let trimmed = trim_end(&cs, st, end, &suffix);
    let stop = match find_char(&cs, '_', st, trimmed) {
        Some(i) => i,
        None => trimmed,
    };
    proof {
        let name = cs@.subrange(st as int, end as int);
        assert(spec_second_piece(cs@, marker@) == Some(name));
        let t = cs@.subrange(st as int, trimmed as int);
        lemma_before_first(t, '_', stop - st);
        assert(t.subrange(0, stop - st) =~= cs@.subrange(st as int, stop as int));
    }
    match parse_unsigned(&cs, st, stop, u64::MAX) {
        Some(v) => Some(v),
        None => None,
    }
}

/// A found occurrence lies inside the text.
proof fn lemma_find_matches(s: Seq<char>, p: Seq<char>, i: int, j: int)
    requires
        spec_find_from(s, p, i) == Some(j),
    ensures
        spec_matches_at(s, p, j),
        i <= j,
    decreases s.len() + 1 - i,
{
    if i < 0 || i + p.len() > s.len() {
    } else if spec_matches_at(s, p, i) {
    } else {
        lemma_find_matches(s, p, i + 1, j);
    }
}

} // verus!

verus! {

/// Whether `s` ends with `p`.
pub open spec fn spec_ends_with(s: Seq<char>, p: Seq<char>) -> bool {
    p.len() <= s.len() && s.subrange(s.len() - p.len(), s.len() as int) == p
}

/// The first block of interval `interval_id` of the interval file at
/// `path` starting at `file_start`: days of 7,200 blocks, except that the
/// last interval of the last file starts 5,808 blocks further.
pub open spec fn spec_interval_block(file_start: int, interval_id: int, path: Seq<char>) -> int {
    if spec_ends_with(path, FINAL_INTERVAL_FILE@) && interval_id == 19 {
        file_start + interval_id * 7200 + 5808
    } else {
        file_start + interval_id * 7200
    }
}

/// The block number of an interval: the file's start read from its path,
/// or `base_block` when the path names none (see `spec_interval_block`).
pub open spec fn spec_block_number(base_block: u64, interval_id: u64, path: Seq<char>) -> int {
    let start = match spec_interval_file_start(path) {
        Some(v) => v,
        None => base_block,
    };
    spec_interval_block(start as int, interval_id as int, path)
}

/// Whether `p` occurs in `s`.
pub open spec fn spec_contains_text(s: Seq<char>, p: Seq<char>) -> bool {
    spec_find_from(s, p, 0) is Some
}

/// Whether `p` occurs in `s` (see `spec_contains_text`).
pub fn text_contains(s: &str, p: &str) -> (r: bool)
    ensures
        r == spec_contains_text(s@, p@),
{
    let cs = chars_of(s);
    let ps = chars_of(p);
    find_from(&cs, &ps, 0).is_some()
}

/// Whether `file_path` ends with `suffix`.
pub fn path_ends_with(file_path: &str, suffix: &str) -> (r: bool)
    ensures
        r == spec_ends_with(file_path@, suffix@),
{
    let cs = chars_of(file_path);
    let p = chars_of(suffix);
    let n = cs.len();
    assert(cs@.subrange(0, n as int) =~= cs@);
    ends_with(&cs, 0, n, &p)
}

/// The first block of interval `interval_id` of the file at `file_path`
/// that starts at `file_start` (see `spec_interval_block`).
pub fn interval_block(file_start: u64, interval_id: u64, file_path: &str) -> (r: u64)
    requires
        spec_interval_block(file_start as int, interval_id as int, file_path@) <= u64::MAX,
    ensures
        r == spec_interval_block(file_start as int, interval_id as int, file_path@),
{
    proof {
        assert(interval_id * 7200 >= 0) by (nonlinear_arith)
            requires interval_id >= 0;
    }
    if path_ends_with(file_path, FINAL_INTERVAL_FILE) && interval_id == 19 {
        file_start + (interval_id * BLOCKS_PER_DAY) + FINAL_PARTIAL_BLOCKS
    } else {
        file_start + (interval_id * BLOCKS_PER_DAY)
    }
}

/// The block number of interval `interval_id` of the interval file at
/// `file_path` (see `spec_block_number`).
pub fn calculate_block_number(base_block: u64, interval_id: u64, file_path: &str) -> (r: u64)
    requires
        spec_block_number(base_block, interval_id, file_path@) <= u64::MAX,
    ensures
        r == spec_block_number(base_block, interval_id, file_path@),
{
    let file_start = match interval_file_start(file_path) {
        Some(v) => v,
        None => base_block,
    };
    interval_block(file_start, interval_id, file_path)
}

/// Within one interval file, a later interval starts at a later block: the
/// block numbers of a file's intervals increase strictly with the interval.
pub proof fn lemma_block_number_increasing(base_block: u64, i: u64, j: u64, file_path: Seq<char>)
    requires
        i < j,
    ensures
        spec_block_number(base_block, i, file_path) < spec_block_number(base_block, j, file_path),
{
    assert((i as int) * 7200 + 7200 <= (j as int) * 7200) by (nonlinear_arith)
        requires i < j;
}

/// No match of `p` from index `i` on leaves `spec_find_from` empty.
proof fn lemma_find_none(s: Seq<char>, p: Seq<char>, i: int)
    requires
        forall|j: int| i <= j ==> !spec_matches_at(s, p, j),
    ensures
        spec_find_from(s, p, i) is None,
    decreases s.len() + 1 - i,
{
    if i < 0 || i + p.len() > s.len() {
    } else {
        lemma_find_none(s, p, i + 1);
    }
}

/// The text before the first `c` of `a + [c] + b`, where `a` holds no `c`,
/// is `a`.
proof fn lemma_before_separator(a: Seq<char>, c: char, b: Seq<char>)
    requires
        forall|q: int| 0 <= q < a.len() ==> a[q] != c,
    ensures
        spec_before_first(a + seq![c] + b, c) == a,
{
    let s = a + seq![c] + b;
    lemma_before_first(s, c, a.len() as int);
    assert(s.subrange(0, a.len() as int) =~= a);
}

/// The path of an interval file, `intervals/<start>_<end>.parquet`, as the
/// file writer names it from the decimal digits of its two blocks.
pub open spec fn spec_interval_path(start_digits: Seq<char>, end_digits: Seq<char>) -> Seq<char> {
    "intervals/"@ + start_digits + seq!['_'] + end_digits + ".parquet"@
}

/// The name that follows `intervals/` in an interval file's path.
proof fn lemma_interval_path_name(start_digits: Seq<char>, end_digits: Seq<char>)
    requires
        spec_all_digits(start_digits),
        spec_all_digits(end_digits),
    ensures
        spec_second_piece(spec_interval_path(start_digits, end_digits), "intervals/"@)
            == Some(start_digits + seq!['_'] + end_digits + ".parquet"@),
{
    reveal_strlit("intervals/");
    reveal_strlit(".parquet");
    let marker = "intervals/"@;
    let suffix = ".parquet"@;
    let core = start_digits + seq!['_'] + end_digits;
    let name = core + suffix;
    let p = spec_interval_path(start_digits, end_digits);
    assert(p =~= marker + name);
    let m = marker.len() as int;
    assert(p.subrange(0, m) =~= marker);
    assert(spec_matches_at(p, marker, 0));
    assert(spec_find_from(p, marker, 0) == Some(0int));
    assert forall|k: int| m <= k < p.len() implies p[k] != '/' by {
        let q = k - m;
        assert(p[k] == name[q]);
        if q < start_digits.len() {
            assert(spec_is_digit(start_digits[q]));
        } else if q == start_digits.len() {
        } else if q < core.len() {
            assert(spec_is_digit(end_digits[q - start_digits.len() - 1]));
        } else {
            assert(name[q] == suffix[q - core.len()]);
        }
    }
    assert forall|j: int| m <= j implies !spec_matches_at(p, marker, j) by {
        if spec_matches_at(p, marker, j) {
            assert(p.subrange(j, j + m)[m - 1] == marker[m - 1]);
        }
    }
    lemma_find_none(p, marker, m);
    assert(p.subrange(m, p.len() as int) =~= name);
}

/// One `.parquet` ending comes off an interval file's name, leaving
/// `<start>_<end>`, which ends in a digit.
proof fn lemma_interval_name_trim(start_digits: Seq<char>, end_digits: Seq<char>)
    requires
        end_digits.len() > 0,
        spec_all_digits(end_digits),
    ensures
        spec_trim_end(start_digits + seq!['_'] + end_digits + ".parquet"@, ".parquet"@)
            == start_digits + seq!['_'] + end_digits,
{
    reveal_strlit(".parquet");
    let suffix = ".parquet"@;
    let core = start_digits + seq!['_'] + end_digits;
    let name = core + suffix;
    assert(name.subrange(name.len() - suffix.len(), name.len() as int) =~= suffix);
    assert(name.subrange(0, name.len() - suffix.len()) =~= core);
    let last = core[core.len() - 1];
    assert(last == end_digits[end_digits.len() - 1]);
    assert(spec_is_digit(last));
    if suffix.len() <= core.len() {
        assert(core.subrange(core.len() - suffix.len(), core.len() as int)[suffix.len() - 1] == last);
        assert(core.subrange(core.len() - suffix.len(), core.len() as int) != suffix);
    }
    assert(spec_trim_end(core, suffix) == core);
}

/// The start block read back from the path of an interval file named
/// `intervals/<start>_<end>.parquet` is the start it was named with, so the
/// block number of its interval `interval_id` is counted from it whatever
/// `base_block` is.
pub proof fn lemma_interval_path_start(
    start_digits: Seq<char>,
    end_digits: Seq<char>,
    base_block: u64,
    interval_id: u64,
)
    requires
        start_digits.len() > 0,
        end_digits.len() > 0,
        spec_all_digits(start_digits),
        spec_all_digits(end_digits),
        spec_digits_value(start_digits) <= u64::MAX,
    ensures
        spec_interval_file_start(spec_interval_path(start_digits, end_digits))
            == Some(spec_digits_value(start_digits) as u64),
        spec_block_number(base_block, interval_id, spec_interval_path(start_digits, end_digits))
            == spec_interval_block(
            spec_digits_value(start_digits),
            interval_id as int,
            spec_interval_path(start_digits, end_digits),
        ),
{
    lemma_interval_path_name(start_digits, end_digits);
    lemma_interval_name_trim(start_digits, end_digits);
    assert forall|q: int| 0 <= q < start_digits.len() implies start_digits[q] != '_' by {
        assert(spec_is_digit(start_digits[q]));
    }
    lemma_before_separator(start_digits, '_', end_digits);
    assert(spec_is_digit(start_digits[0]));
    assert(spec_unsigned_body(start_digits) == start_digits);
    lemma_digits_value_nonneg(start_digits);
}

/// Whether the block number of interval `interval_id` of the file at
/// `file_path` (see `spec_block_number`) fits in 64 bits.
pub fn block_number_fits(base_block: u64, interval_id: u64, file_path: &str) -> (r: bool)
    ensures
        r == (spec_block_number(base_block, interval_id, file_path@) <= u64::MAX),
{
    let file_start = match interval_file_start(file_path) {
        Some(v) => v,
        None => base_block,
    };
    let extra: u128 = if path_ends_with(file_path, FINAL_INTERVAL_FILE) && interval_id == 19 {
        FINAL_PARTIAL_BLOCKS as u128
    } else {
        0
    };
    proof {
        assert((interval_id as int) * 7200 <= (u64::MAX as int) * 7200) by (nonlinear_arith);
        assert((interval_id as int) * 7200 >= 0) by (nonlinear_arith);
    }
    let block: u128 = (file_start as u128) + (interval_id as u128) * (BLOCKS_PER_DAY as u128) + extra;
    block <= u64::MAX as u128
}

/// The markout time named by a checkpoint file: what follows the last `_`
/// of its path, without its `.parquet` ending; none when it lacks one.
pub open spec fn spec_checkpoint_markout(path: Seq<char>) -> Option<Seq<char>> {
    let last = spec_after_last(path, '_');
    if spec_ends_with(last, ".parquet"@) {
        Some(last.subrange(0, last.len() - 8))
    } else {
        None
    }
}

/// The markout time named by a checkpoint file (see
/// `spec_checkpoint_markout`).
pub fn checkpoint_markout(file_path: &str) -> (r: Option<String>)
    ensures
        match r {
            Some(m) => spec_checkpoint_markout(file_path@) == Some(m@),
            None => spec_checkpoint_markout(file_path@) is None,
        },
{
    let cs = chars_of(file_path);
    let suffix = chars_of(".parquet");
    proof {
        reveal_strlit(".parquet");
    }
    let n = cs.len();
    assert(cs@.subrange(0, n as int) =~= cs@);
    let st = after_last_char(&cs, '_', n);
    if ends_with(&cs, st, n, &suffix) {
        let mut out: Vec<char> = Vec::new();
        let stop = n - 8;
        let mut i = st;
        while i < stop
            invariant
                st <= i <= stop,
                stop == n - 8,
                n == cs.len(),
                out@ == cs@.subrange(st as int, i as int),
            decreases stop - i,
        {
            out.push(cs[i]);
            assert(cs@.subrange(st as int, i + 1) =~= cs@.subrange(st as int, i as int).push(cs@[i as int]));
            i = i + 1;
        }
        proof {
            let last = cs@.subrange(st as int, n as int);
            assert(last.subrange(0, last.len() - 8) =~= cs@.subrange(st as int, stop as int));
        }
        Some(string_of(&out))
    } else {
        None
    }
}

/// The lowercased pool address named by a checkpoint file: the text of its
/// name (after the last `/`) before the first `_`.
pub open spec fn spec_checkpoint_pool(path: Seq<char>) -> Seq<char> {
    spec_lower(spec_before_first(spec_after_last(path, '/'), '_'))
}

/// The text of `cs[from..to]`.
fn text_of(cs: &Vec<char>, from: usize, to: usize) -> (r: String)
    requires
        from <= to <= cs.len(),
    ensures
        r@ == cs@.subrange(from as int, to as int),
{
    let mut out: Vec<char> = Vec::new();
    let mut i = from;
    while i < to
        invariant
            from <= i <= to <= cs.len(),
            out@ == cs@.subrange(from as int, i as int),
        decreases to - i,
    {
        out.push(cs[i]);
        assert(cs@.subrange(from as int, i + 1) =~= cs@.subrange(from as int, i as int).push(cs@[i as int]));
        i = i + 1;
    }
    string_of(&out)
}

/// The lowercased pool address named by a checkpoint file (see
/// `spec_checkpoint_pool`).
pub fn checkpoint_pool(file_path: &str) -> (r: String)
    ensures
        r@ == spec_checkpoint_pool(file_path@),
{
    let cs = chars_of(file_path);
    let n = cs.len();
    assert(cs@.subrange(0, n as int) =~= cs@);
    let st = after_last_char(&cs, '/', n);
    let stop = match find_char(&cs, '_', st, n) {
        Some(i) => i,
        None => n,
    };
    proof {
        let name = cs@.subrange(st as int, n as int);
        lemma_before_first(name, '_', stop - st);
        assert(name.subrange(0, stop - st) =~= cs@.subrange(st as int, stop as int));
    }
    let name = text_of(&cs, st, stop);
    to_lower(name.as_str())
}

/// The start block named by a file: the number before the first `_` of
/// its name (after the last `/`).
pub open spec fn spec_file_name_start(path: Seq<char>) -> Option<u64> {
    match spec_parse_unsigned(spec_before_first(spec_after_last(path, '/'), '_'), u64::MAX as int) {
        Some(v) => Some(v as u64),
        None => None,
    }
}

/// The start block named by a file (see `spec_file_name_start`).
pub fn file_name_start(file_path: &str) -> (r: Option<u64>)
    ensures
        r == spec_file_name_start(file_path@),
{
    let cs = chars_of(file_path);
    let n = cs.len();
    assert(cs@.subrange(0, n as int) =~= cs@);
    let st = after_last_char(&cs, '/', n);
    let stop = match find_char(&cs, '_', st, n) {
        Some(i) => i,
        None => n,
    };
    proof {
        let name = cs@.subrange(st as int, n as int);
        lemma_before_first(name, '_', stop - st);
        assert(name.subrange(0, stop - st) =~= cs@.subrange(st as int, stop as int));
    }
    match parse_unsigned(&cs, st, stop, u64::MAX) {
        Some(v) => Some(v),
        None => None,
    }
}

/// The two numbers named by an interval file `<start>_<end>.parquet`: when
/// its name (after the last `/`) holds exactly one `_`, the parse of the
/// text before it and of the text after it without its `.parquet` endings.
pub open spec fn spec_interval_file_range(path: Seq<char>) -> Option<(Option<u64>, Option<u64>)> {
    let name = spec_after_last(path, '/');
    if spec_count(name, '_') == 1 {
        let a = spec_parse_unsigned(spec_before_first(name, '_'), u64::MAX as int);
        let b = spec_parse_unsigned(spec_trim_end(spec_after_last(name, '_'), ".parquet"@), u64::MAX as int);
        Some((
            match a { Some(v) => Some(v as u64), None => None },
            match b { Some(v) => Some(v as u64), None => None },
        ))
    } else {
        None
    }
}

/// Counts the `c` of `cs[from..to]`.
fn count_char(cs: &Vec<char>, c: char, from: usize, to: usize) -> (r: usize)
    requires
        from <= to <= cs.len(),
    ensures
        r == spec_count(cs@.subrange(from as int, to as int), c),
{
    let mut k: usize = 0;
    let mut i = from;
    assert(cs@.subrange(from as int, from as int).len() == 0);
    while i < to
        invariant
            from <= i <= to <= cs.len(),
            k == spec_count(cs@.subrange(from as int, i as int), c),
            k <= i - from,
        decreases to - i,
    {
        assert(cs@.subrange(from as int, i + 1).drop_last() =~= cs@.subrange(from as int, i as int));
        if cs[i] == c {
            k = k + 1;
        }
        i = i + 1;
    }
    k
}

/// The two numbers named by an interval file (see
/// `spec_interval_file_range`).
pub fn interval_file_range(file_path: &str) -> (r: Option<(Option<u64>, Option<u64>)>)
    ensures
        r == spec_interval_file_range(file_path@),
{
    let cs = chars_of(file_path);
    let suffix = chars_of(".parquet");
    proof {
        reveal_strlit(".parquet");
    }
    let n = cs.len();
    assert(cs@.subrange(0, n as int) =~= cs@);
    let st = after_last_char(&cs, '/', n);
    let ghost name = cs@.subrange(st as int, n as int);
    if count_char(&cs, '_', st, n) != 1 {
        return None;
    }
    let sep = match find_char(&cs, '_', st, n) {
        Some(i) => i,
        None => {
            proof {
                assert(spec_count(name, '_') == 1);
                lemma_count_absent(name, '_');
            }
            return None;
        },
    };
    let second = after_last_char(&cs, '_', n);
    proof {
        lemma_before_first(name, '_', sep - st);
        assert(name.subrange(0, sep - st) =~= cs@.subrange(st as int, sep as int));
        assert(second >= st) by {
            if second < st {
                assert(cs@[sep as int] == '_');
            }
        }
        lemma_after_last(name, '_', second - st);
        assert(name.subrange(second - st, name.len() as int) =~= cs@.subrange(second as int, n as int));
        if second > st {
            assert(name[second - st - 1] == '_');
        }
    }
    let trimmed = trim_end(&cs, second, n, &suffix);
    let a = parse_unsigned(&cs, st, sep, u64::MAX);
    let b = parse_unsigned(&cs, second, trimmed, u64::MAX);
    Some((a, b))
}

/// A text in which `c` occurs holds it somewhere.
proof fn lemma_count_absent(s: Seq<char>, c: char)
    requires
        forall|q: int| 0 <= q < s.len() ==> s[q] != c,
    ensures
        spec_count(s, c) == 0,
    decreases s.len(),
{
    if s.len() > 0 {
        lemma_count_absent(s.drop_last(), c);
    }
}

} // verus!
