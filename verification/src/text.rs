//! Turning the text of a maze into its rows.
//!
//! A maze is written as lines of characters. Each line loses its trailing
//! whitespace, and lines left empty are dropped: what remains are the rows.
use vstd::prelude::*;

verus! {

/// Unicode's `White_Space` property, which `char::is_whitespace` and
/// `str::trim_end` go by.
pub open spec fn is_whitespace(c: char) -> bool {
    let u = c as u32;
    ||| 0x9 <= u <= 0xd
    ||| u == 0x20
    ||| u == 0x85
    ||| u == 0xa0
    ||| u == 0x1680
    ||| 0x2000 <= u <= 0x200a
    ||| u == 0x2028
    ||| u == 0x2029
    ||| u == 0x202f
    ||| u == 0x205f
    ||| u == 0x3000
}

/// `s` without its trailing whitespace.
pub open spec fn trim_end(s: Seq<char>) -> Seq<char>
    decreases s.len(),
{
    if s.len() > 0 && is_whitespace(s.last()) {
        trim_end(s.drop_last())
    } else {
        s
    }
}

/// The pieces of `s` between newline characters, in order; the last piece
/// is what follows the last newline (empty where `s` ends with one).
pub open spec fn split_lines(s: Seq<char>) -> Seq<Seq<char>>
    decreases s.len(),
{
    if s.len() == 0 {
        seq![Seq::<char>::empty()]
    } else {
        let init = split_lines(s.drop_last());
        if s.last() == '\n' {
            init.push(Seq::<char>::empty())
        } else {
            init.update(init.len() - 1, init.last().push(s.last()))
        }
    }
}

pub open spec fn trim_fn() -> spec_fn(Seq<char>) -> Seq<char> {
    |l: Seq<char>| trim_end(l)
}

pub open spec fn nonblank_fn() -> spec_fn(Seq<char>) -> bool {
    |l: Seq<char>| l.len() > 0
}

/// The rows of a maze text: its lines, each without trailing whitespace,
/// those left empty dropped.
pub open spec fn text_rows(s: Seq<char>) -> Seq<Seq<char>> {
    split_lines(s).map_values(trim_fn()).filter(nonblank_fn())
}

/// Whether `c` is whitespace, as `char::is_whitespace` decides.
pub fn is_whitespace_char(c: char) -> (r: bool)
    ensures
        r == is_whitespace(c),
{
    let u = c as u32;
    (0x9 <= u && u <= 0xd) || u == 0x20 || u == 0x85 || u == 0xa0 || u == 0x1680 || (0x2000 <= u
        && u <= 0x200a) || u == 0x2028 || u == 0x2029 || u == 0x202f || u == 0x205f || u == 0x3000
}

/// The characters of `s`, in order.
pub fn chars_of(s: &str) -> (r: Vec<char>)
    ensures
        r@ == s@,
{
    let mut r: Vec<char> = Vec::new();
    for c in it: s.chars()
        invariant
            r@ == it.seq().take(it.index() as int),
            it.seq() == s@,
    {
        r.push(c);
    }
    r
}

/// `line` without its trailing whitespace.
pub fn trimmed(line: &Vec<char>) -> (r: Vec<char>)
    ensures
        r@ == trim_end(line@),
{
    let mut n = line.len();
    assert(line@.take(n as int) =~= line@);
    while n > 0 && is_whitespace_char(line[n - 1])
        invariant
            n <= line@.len(),
            trim_end(line@) == trim_end(line@.take(n as int)),
        decreases n,
    {
        assert(line@.take(n as int).drop_last() =~= line@.take(n - 1));
        n = n - 1;
    }
    assert(trim_end(line@.take(n as int)) == line@.take(n as int));
    let mut r: Vec<char> = Vec::new();
    let mut i: usize = 0;
    while i < n
        invariant
            i <= n <= line@.len(),
            r@ == line@.take(i as int),
        decreases n - i,
    {
        r.push(line[i]);
        assert(line@.take(i + 1) =~= line@.take(i as int).push(line@[i as int]));
        i = i + 1;
    }
    r
}

/// The rows of the maze text `src` (see `text_rows`).
pub fn rows_of(src: &str) -> (rows: Vec<Vec<char>>)
    ensures
        rows.deep_view() == text_rows(src@),
{
    broadcast use Seq::lemma_filter_push, Seq::lemma_push_map_commute;

    let chars = chars_of(src);
    let mut rows: Vec<Vec<char>> = Vec::new();
    let mut cur: Vec<char> = Vec::new();
    let mut i: usize = 0;
    while i < chars.len()
        invariant
            i <= chars@.len(),
            chars@ == src@,
            split_lines(chars@.take(i as int)).len() >= 1,
            rows.deep_view() == split_lines(chars@.take(i as int)).drop_last().map_values(
                trim_fn(),
            ).filter(nonblank_fn()),
            cur@ == split_lines(chars@.take(i as int)).last(),
        decreases chars@.len() - i,
    {
        let ghost before = split_lines(chars@.take(i as int));
        let c = chars[i];
        assert(chars@.take(i + 1).drop_last() =~= chars@.take(i as int));
        assert(chars@.take(i + 1).last() == c);
        if c == '\n' {
            let t = trimmed(&cur);
            assert(before =~= before.drop_last().push(before.last()));
            let ghost old_rows = rows.deep_view();
            if t.len() > 0 {
                assert(t.deep_view() =~= t@);
                rows.push(t);
                assert(rows.deep_view() =~= old_rows.push(t@));
            } else {
                assert(!nonblank_fn()(trim_end(before.last())));
            }
            assert(split_lines(chars@.take(i + 1)).drop_last() =~= before);
            proof {
                before.drop_last().lemma_push_map_commute(trim_fn(), before.last());
                before.drop_last().map_values(trim_fn()).lemma_filter_push(
                    trim_end(before.last()),
                    nonblank_fn(),
                );
            }
            assert(rows.deep_view() =~= split_lines(chars@.take(i + 1)).drop_last().map_values(
                trim_fn(),
            ).filter(nonblank_fn()));
            cur = Vec::new();
        } else {
            cur.push(c);
            assert(split_lines(chars@.take(i + 1)).drop_last() =~= before.drop_last());
        }
        i = i + 1;
    }
    assert(chars@.take(i as int) =~= src@);
    let ghost all = split_lines(src@);
    let t = trimmed(&cur);
    assert(all =~= all.drop_last().push(all.last()));
    proof {
        all.drop_last().lemma_push_map_commute(trim_fn(), all.last());
        all.drop_last().map_values(trim_fn()).lemma_filter_push(trim_end(all.last()), nonblank_fn());
    }
    let ghost old_rows = rows.deep_view();
    if t.len() > 0 {
        assert(t.deep_view() =~= t@);
        rows.push(t);
        assert(rows.deep_view() =~= old_rows.push(t@));
    } else {
        assert(!nonblank_fn()(trim_end(all.last())));
    }
    assert(all.map_values(trim_fn()) =~= all.drop_last().map_values(trim_fn()).push(trim_end(all.last())));
    assert(rows.deep_view() =~= text_rows(src@));
    rows
}

} // verus!
