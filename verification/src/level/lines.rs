//! Splitting a level description into the lines that describe the level.
use vstd::prelude::*;

verus! {

/// The lines of a text, split at every line feed.
pub open spec fn raw_lines(s: Seq<char>) -> Seq<Seq<char>>
    decreases s.len(),
{
    if s.len() == 0 {
        seq![Seq::empty()]
    } else {
        let r = raw_lines(s.drop_last());
        if s.last() == '\n' {
            r.push(Seq::empty())
        } else {
            r.update(r.len() - 1, r.last().push(s.last()))
        }
    }
}

/// A line without the carriage return that may end it.
pub open spec fn strip_cr(l: Seq<char>) -> Seq<char> {
    if l.len() > 0 && l.last() == '\r' {
        l.drop_last()
    } else {
        l
    }
}

/// Unicode white space, as `char::is_whitespace` knows it.
pub open spec fn spec_is_whitespace(c: char) -> bool {
    let u = c as u32;
    (0x9 <= u <= 0xd) || u == 0x20 || u == 0x85 || u == 0xa0 || u == 0x1680 || (0x2000 <= u
        <= 0x200a) || u == 0x2028 || u == 0x2029 || u == 0x202f || u == 0x205f || u == 0x3000
}

/// A line is a comment if its first character other than white space is a semicolon.
pub open spec fn is_comment(l: Seq<char>) -> bool {
    exists|k: int|
        0 <= k < l.len() && l[k] == ';' && forall|j: int|
            0 <= j < k ==> spec_is_whitespace(#[trigger] l[j])
}

/// Empty lines and comments do not describe any part of a level.
pub open spec fn is_empty_or_comment_spec(l: Seq<char>) -> bool {
    l.len() == 0 || is_comment(l)
}

/// The lines among `ls` (carriage returns removed) that describe a part of the level.
pub open spec fn keep_level_lines(ls: Seq<Seq<char>>) -> Seq<Seq<char>>
    decreases ls.len(),
{
    if ls.len() == 0 {
        Seq::empty()
    } else {
        let rest = keep_level_lines(ls.drop_last());
        let l = strip_cr(ls.last());
        if is_empty_or_comment_spec(l) {
            rest
        } else {
            rest.push(l)
        }
    }
}

/// The lines of a level description that describe the level: every line of the text without
/// its carriage return, except for empty lines and comments.
pub open spec fn level_lines(s: Seq<char>) -> Seq<Seq<char>> {
    keep_level_lines(raw_lines(s))
}

/// The lines that describe a level are never empty.
pub proof fn lemma_keep_level_lines_nonempty(ls: Seq<Seq<char>>)
    ensures
        forall|i: int|
            0 <= i < keep_level_lines(ls).len() ==> #[trigger] keep_level_lines(ls)[i].len() > 0,
    decreases ls.len(),
{
    if ls.len() > 0 {
        lemma_keep_level_lines_nonempty(ls.drop_last());
        let rest = keep_level_lines(ls.drop_last());
        let l = strip_cr(ls.last());
        if !is_empty_or_comment_spec(l) {
            assert forall|i: int| 0 <= i < keep_level_lines(ls).len() implies #[trigger] keep_level_lines(
                ls,
            )[i].len() > 0 by {
                if i < rest.len() {
                    assert(keep_level_lines(ls)[i] == rest[i]);
                }
            }
        }
    }
}

pub proof fn lemma_level_lines_nonempty(s: Seq<char>)
    ensures
        forall|i: int| 0 <= i < level_lines(s).len() ==> #[trigger] level_lines(s)[i].len() > 0,
{
    lemma_keep_level_lines_nonempty(raw_lines(s));
}

pub fn is_whitespace(c: char) -> (r: bool)
    ensures
        r == spec_is_whitespace(c),
{
    let u = c as u32;
    (0x9 <= u && u <= 0xd) || u == 0x20 || u == 0x85 || u == 0xa0 || u == 0x1680 || (0x2000 <= u
        && u <= 0x200a) || u == 0x2028 || u == 0x2029 || u == 0x202f || u == 0x205f || u == 0x3000
}

/// Empty lines and comments do not describe any part of a level.
pub fn is_empty_or_comment(l: &Vec<char>) -> (r: bool)
    ensures
        r == is_empty_or_comment_spec(l@),
{
    let n = l.len();
    if n == 0 {
        return true;
    }
    let mut k: usize = 0;
    while k < n
        invariant
            k <= n,
            n == l.len(),
            forall|j: int| 0 <= j < k ==> spec_is_whitespace(#[trigger] l@[j]),
        decreases n - k,
    {
        if l[k] == ';' {
            return true;
        }
        if !is_whitespace(l[k]) {
            assert(!is_comment(l@)) by {
                if is_comment(l@) {
                    let kk = choose|kk: int|
                        0 <= kk < l@.len() && l@[kk] == ';' && forall|j: int|
                            0 <= j < kk ==> spec_is_whitespace(#[trigger] l@[j]);
                    if kk < k {
                    } else if kk > k {
                        assert(spec_is_whitespace(l@[k as int]));
                    }
                }
            }
            return false;
        }
        k = k + 1;
    }
    assert(!is_comment(l@)) by {
        if is_comment(l@) {
            let kk = choose|kk: int|
                0 <= kk < l@.len() && l@[kk] == ';' && forall|j: int|
                    0 <= j < kk ==> spec_is_whitespace(#[trigger] l@[j]);
            assert(spec_is_whitespace(l@[kk]));
        }
    }
    false
}

/// Split a text at its line feeds.
pub fn split_lines(s: &Vec<char>) -> (r: Vec<Vec<char>>)
    ensures
        r@.len() == raw_lines(s@).len(),
        forall|i: int| 0 <= i < r@.len() ==> #[trigger] r@[i]@ == raw_lines(s@)[i],
{
    let mut lines: Vec<Vec<char>> = Vec::new();
    let mut cur: Vec<char> = Vec::new();
    let n = s.len();
    assert(s@.take(0) =~= Seq::<char>::empty());
    for i in 0..n
        invariant
            n == s.len(),
            lines@.len() + 1 == raw_lines(s@.take(i as int)).len(),
            forall|k: int| 0 <= k < lines@.len() ==> #[trigger] lines@[k]@ == raw_lines(
                s@.take(i as int),
            )[k],
            cur@ == raw_lines(s@.take(i as int)).last(),
    {
        let c = s[i];
        assert(s@.take(i + 1).drop_last() =~= s@.take(i as int));
        if c == '\n' {
            lines.push(cur);
            cur = Vec::new();
        } else {
            cur.push(c);
        }
    }
    assert(s@.take(n as int) =~= s@);
    lines.push(cur);
    lines
}

/// Remove a carriage return at the end of a line.
pub fn strip_carriage_return(l: &mut Vec<char>)
    ensures
        final(l)@ == strip_cr(old(l)@),
{
    let n = l.len();
    if n > 0 && l[n - 1] == '\r' {
        l.pop();
    }
}

/// The lines of a level description that describe the level.
pub fn level_lines_of(s: &Vec<char>) -> (r: Vec<Vec<char>>)
    ensures
        r@.len() == level_lines(s@).len(),
        forall|i: int| 0 <= i < r@.len() ==> #[trigger] r@[i]@ == level_lines(s@)[i],
{
    let raw = split_lines(s);
    let ghost rl = raw_lines(s@);
    let mut kept: Vec<Vec<char>> = Vec::new();
    let n = raw.len();
    let mut i: usize = 0;
    assert(rl.take(0) =~= Seq::<Seq<char>>::empty());
    while i < n
        invariant
            n == raw.len(),
            n == rl.len(),
            i <= n,
            forall|k: int| 0 <= k < n ==> #[trigger] raw@[k]@ == rl[k],
            kept@.len() == keep_level_lines(rl.take(i as int)).len(),
            forall|k: int| 0 <= k < kept@.len() ==> #[trigger] kept@[k]@ == keep_level_lines(
                rl.take(i as int),
            )[k],
        decreases n - i,
    {
        let mut l = raw[i].clone();
        assert(l@ == rl[i as int]);
        strip_carriage_return(&mut l);
        assert(rl.take(i + 1).drop_last() =~= rl.take(i as int));
        assert(rl.take(i + 1).last() == rl[i as int]);
        if !is_empty_or_comment(&l) {
            kept.push(l);
        }
        i = i + 1;
    }
    assert(rl.take(n as int) =~= rl);
    kept
}

} // verus!
