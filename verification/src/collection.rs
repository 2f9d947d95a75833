//! Collections of levels, read from the plain-text format (levels separated by blank lines) or
//! from the XML-based .slc format.
use vstd::prelude::*;

use crate::level::{Level, LevelView, spec_parse_level, level_text_ok, check_level_text};
use crate::level::lines::{raw_lines, strip_cr, spec_is_whitespace, is_whitespace, split_lines,
    strip_carriage_return};
use crate::text::{chars_of, string_of};
use crate::util::SokobanError;

verus! {

/// A collection of levels.
#[derive(Debug)]
pub struct Collection {
    /// The full name of the collection.
    pub name: String,
    /// The name of the file containing the level collection.
    pub short_name: String,
    pub description: Option<String>,
    pub number_of_levels: usize,
    /// All levels of this collection. This variable is only written to when loading the
    /// collection.
    pub levels: Vec<Level>,
}

/// A collection as a mathematical value.
pub struct CollectionView {
    pub name: Seq<char>,
    pub short_name: Seq<char>,
    pub description: Option<Seq<char>>,
    pub number_of_levels: nat,
    pub levels: Seq<LevelView>,
}

impl View for Collection {
    type V = CollectionView;

    open spec fn view(&self) -> CollectionView {
        CollectionView {
            name: self.name@,
            short_name: self.short_name@,
            description: match self.description {
                Some(d) => Some(d@),
                None => None,
            },
            number_of_levels: self.number_of_levels as nat,
            levels: self.levels@.map_values(|l: Level| l@),
        }
    }
}

/// A line break character.
pub open spec fn is_eol(c: char) -> bool {
    c == '\n' || c == '\r'
}

/// Splitting `s` from index `i` on at every blank line (two line feeds in a row), where `cur` is
/// the piece begun so far and `acc` holds the pieces finished before.
pub open spec fn split_blank_from(
    s: Seq<char>,
    i: int,
    cur: Seq<char>,
    acc: Seq<Seq<char>>,
) -> Seq<Seq<char>>
    decreases s.len() - i,
{
    if i >= s.len() {
        acc.push(cur)
    } else if i + 1 < s.len() && s[i] == '\n' && s[i + 1] == '\n' {
        split_blank_from(s, i + 2, Seq::empty(), acc.push(cur))
    } else {
        split_blank_from(s, i + 1, cur.push(s[i]), acc)
    }
}

/// The pieces of `s` between blank lines, as `str::split("\n\n")` cuts them.
pub open spec fn split_blank(s: Seq<char>) -> Seq<Seq<char>> {
    split_blank_from(s, 0, Seq::empty(), Seq::empty())
}

/// `s` without the line breaks at its start.
pub open spec fn trim_eol_start(s: Seq<char>) -> Seq<char>
    decreases s.len(),
{
    if s.len() > 0 && is_eol(s[0]) {
        trim_eol_start(s.skip(1))
    } else {
        s
    }
}

/// `s` without the line breaks at its end.
pub open spec fn trim_eol_end(s: Seq<char>) -> Seq<char>
    decreases s.len(),
{
    if s.len() > 0 && is_eol(s.last()) {
        trim_eol_end(s.drop_last())
    } else {
        s
    }
}

/// `s` without the line breaks at both ends.
pub open spec fn trim_eol(s: Seq<char>) -> Seq<char> {
    trim_eol_end(trim_eol_start(s))
}

/// `s` without white space at its start.
pub open spec fn trim_ws_start(s: Seq<char>) -> Seq<char>
    decreases s.len(),
{
    if s.len() > 0 && spec_is_whitespace(s[0]) {
        trim_ws_start(s.skip(1))
    } else {
        s
    }
}

/// `s` without white space at its end.
pub open spec fn trim_ws_end(s: Seq<char>) -> Seq<char>
    decreases s.len(),
{
    if s.len() > 0 && spec_is_whitespace(s.last()) {
        trim_ws_end(s.drop_last())
    } else {
        s
    }
}

/// `s` without white space at both ends.
pub open spec fn trim_ws(s: Seq<char>) -> Seq<char> {
    trim_ws_end(trim_ws_start(s))
}

/// The pieces, trimmed of line breaks, that are not empty then.
pub open spec fn kept_blocks(pieces: Seq<Seq<char>>) -> Seq<Seq<char>>
    decreases pieces.len(),
{
    if pieces.len() == 0 {
        Seq::empty()
    } else {
        let r = kept_blocks(pieces.drop_last());
        let t = trim_eol(pieces.last());
        if t.len() > 0 {
            r.push(t)
        } else {
            r
        }
    }
}

/// The blocks of a plain-text collection: its header, then one block for each level.
pub open spec fn level_blocks(content: Seq<char>) -> Seq<Seq<char>> {
    kept_blocks(split_blank(content))
}

/// The levels described by blocks `1..=k`, the one in block `i` ranked `i`, or the error of the
/// first block that describes none.
pub open spec fn parse_blocks(bs: Seq<Seq<char>>, k: int) -> Result<Seq<LevelView>, SokobanError>
    decreases k,
{
    if k <= 0 {
        Ok(Seq::empty())
    } else {
        match parse_blocks(bs, k - 1) {
            Ok(ls) => match spec_parse_level((k - 1) as nat, bs[k]) {
                Ok(l) => Ok(ls.push(l)),
                Err(e) => Err(e),
            },
            Err(e) => Err(e),
        }
    }
}

/// Every block among `1..=k` that is parsed (up to the first one that describes no level) can be
/// handed to `Level::parse`.
pub open spec fn blocks_ok(bs: Seq<Seq<char>>, k: int) -> bool
    decreases k,
{
    if k <= 0 {
        true
    } else {
        blocks_ok(bs, k - 1) && (parse_blocks(bs, k - 1) is Ok ==> level_text_ok(bs[k]))
    }
}

/// A plain-text collection can be read: it has a header, and every level that is parsed can be
/// handed to `Level::parse`.
pub open spec fn lvl_content_ok(content: Seq<char>, parse_levels: bool) -> bool {
    let bs = level_blocks(content);
    &&& bs.len() >= 1
    &&& parse_levels ==> blocks_ok(bs, bs.len() - 1)
}

/// The collection a plain-text file describes: the first line of the header is the name, the
/// whole header trimmed of white space the description, and each further block a level.
pub open spec fn spec_parse_lvl(short_name: Seq<char>, content: Seq<char>, parse_levels: bool) -> Result<
    CollectionView,
    SokobanError,
> {
    let bs = level_blocks(content);
    let name = strip_cr(raw_lines(bs[0])[0]);
    let description = Some(trim_ws(bs[0]));
    if parse_levels {
        match parse_blocks(bs, bs.len() - 1) {
            Ok(ls) => Ok(
                CollectionView {
                    name,
                    short_name,
                    description,
                    number_of_levels: ls.len(),
                    levels: ls,
                },
            ),
            Err(e) => Err(e),
        }
    } else {
        Ok(
            CollectionView {
                name,
                short_name,
                description,
                number_of_levels: (bs.len() - 1) as nat,
                levels: Seq::empty(),
            },
        )
    }
}

} // verus!

verus! {

/// The views of a list of character vectors.
pub open spec fn char_vecs(v: Seq<Vec<char>>) -> Seq<Seq<char>> {
    v.map_values(|x: Vec<char>| x@)
}

/// Cut the text at every blank line.
fn split_at_blank_lines(cs: &Vec<char>) -> (r: Vec<Vec<char>>)
    ensures
        char_vecs(r@) == split_blank(cs@),
{
    let n = cs.len();
    let mut acc: Vec<Vec<char>> = Vec::new();
    let mut cur: Vec<char> = Vec::new();
    let mut i: usize = 0;
    proof {
        assert(char_vecs(acc@) =~= Seq::<Seq<char>>::empty());
    }
    while i < n
        invariant
            n == cs@.len(),
            i <= n,
            split_blank_from(cs@, i as int, cur@, char_vecs(acc@)) == split_blank(cs@),
        decreases n - i,
    {
        if i + 1 < n && cs[i] == '\n' && cs[i + 1] == '\n' {
            let ghost before = char_vecs(acc@);
            acc.push(cur);
            cur = Vec::new();
            proof {
                assert(char_vecs(acc@) =~= before.push(acc@.last()@));
                assert(cur@ =~= Seq::<char>::empty());
            }
            i = i + 2;
        } else {
            cur.push(cs[i]);
            i = i + 1;
        }
    }
    let ghost before = char_vecs(acc@);
    acc.push(cur);
    proof {
        assert(char_vecs(acc@) =~= before.push(acc@.last()@));
    }
    acc
}

/// The characters of `cs` from index `start` to index `end`.
fn sub_chars(cs: &Vec<char>, start: usize, end: usize) -> (r: Vec<char>)
    requires
        start <= end <= cs@.len(),
    ensures
        r@ == cs@.subrange(start as int, end as int),
{
    let mut r: Vec<char> = Vec::new();
    let mut i = start;
    while i < end
        invariant
            start <= i <= end <= cs@.len(),
            r@ == cs@.subrange(start as int, i as int),
        decreases end - i,
    {
        r.push(cs[i]);
        assert(cs@.subrange(start as int, i + 1) =~= cs@.subrange(start as int, i as int).push(
            cs@[i as int],
        ));
        i = i + 1;
    }
    r
}

fn is_line_break(c: char) -> (r: bool)
    ensures
        r == is_eol(c),
{
    c == '\n' || c == '\r'
}

/// The characters without the line breaks at both ends.
fn trim_line_breaks(cs: &Vec<char>) -> (r: Vec<char>)
    ensures
        r@ == trim_eol(cs@),
{
    let n = cs.len();
    let mut start: usize = 0;
    assert(cs@.skip(0) =~= cs@);
    while start < n && is_line_break(cs[start])
        invariant
            n == cs@.len(),
            start <= n,
            trim_eol_start(cs@.skip(start as int)) == trim_eol_start(cs@),
        decreases n - start,
    {
        assert(cs@.skip(start as int).skip(1) =~= cs@.skip(start + 1));
        start = start + 1;
    }
    let ghost t = cs@.skip(start as int);
    assert(trim_eol_start(cs@) == t);
    let mut end: usize = n;
    while end > start && is_line_break(cs[end - 1])
        invariant
            n == cs@.len(),
            start <= end <= n,
            t == cs@.skip(start as int),
            trim_eol_end(cs@.subrange(start as int, end as int)) == trim_eol_end(t),
        decreases end - start,
    {
        assert(cs@.subrange(start as int, end as int).drop_last() =~= cs@.subrange(
            start as int,
            end - 1,
        ));
        end = end - 1;
    }
    assert(t =~= cs@.subrange(start as int, n as int));
    sub_chars(cs, start, end)
}

/// The characters without white space at both ends.
fn trim_white_space(cs: &Vec<char>) -> (r: Vec<char>)
    ensures
        r@ == trim_ws(cs@),
{
    let n = cs.len();
    let mut start: usize = 0;
    assert(cs@.skip(0) =~= cs@);
    while start < n && is_whitespace(cs[start])
        invariant
            n == cs@.len(),
            start <= n,
            trim_ws_start(cs@.skip(start as int)) == trim_ws_start(cs@),
        decreases n - start,
    {
        assert(cs@.skip(start as int).skip(1) =~= cs@.skip(start + 1));
        start = start + 1;
    }
    let ghost t = cs@.skip(start as int);
    assert(trim_ws_start(cs@) == t);
    let mut end: usize = n;
    while end > start && is_whitespace(cs[end - 1])
        invariant
            n == cs@.len(),
            start <= end <= n,
            t == cs@.skip(start as int),
            trim_ws_end(cs@.subrange(start as int, end as int)) == trim_ws_end(t),
        decreases end - start,
    {
        assert(cs@.subrange(start as int, end as int).drop_last() =~= cs@.subrange(
            start as int,
            end - 1,
        ));
        end = end - 1;
    }
    assert(t =~= cs@.subrange(start as int, n as int));
    sub_chars(cs, start, end)
}

/// The blocks of a plain-text collection: the pieces between blank lines, trimmed of line
/// breaks, that are not empty.
fn blocks_of(content: &str) -> (r: Vec<Vec<char>>)
    ensures
        char_vecs(r@) == level_blocks(content@),
{
    let cs = chars_of(content);
    let pieces = split_at_blank_lines(&cs);
    let ghost pv = char_vecs(pieces@);
    let mut blocks: Vec<Vec<char>> = Vec::new();
    let n = pieces.len();
    proof {
        assert(char_vecs(blocks@) =~= kept_blocks(pv.take(0)));
    }
    for i in 0..n
        invariant
            n == pieces@.len(),
            pv == char_vecs(pieces@),
            char_vecs(blocks@) == kept_blocks(pv.take(i as int)),
    {
        assert(pv.take(i + 1).drop_last() =~= pv.take(i as int));
        assert(pieces@[i as int]@ == pv[i as int]);
        let t = trim_line_breaks(&pieces[i]);
        if t.len() > 0 {
            let ghost before = char_vecs(blocks@);
            blocks.push(t);
            assert(char_vecs(blocks@) =~= before.push(blocks@.last()@));
        }
    }
    assert(pv.take(n as int) =~= pv);
    blocks
}

} // verus!

verus! {

/// The views of a list of levels.
pub open spec fn level_views(v: Seq<Level>) -> Seq<LevelView> {
    v.map_values(|l: Level| l@)
}

/// Is the text a plain-text collection that `Collection::parse_lvl` can read? See
/// `lvl_content_ok`.
pub fn check_lvl_content(content: &str, parse_levels: bool) -> (r: bool)
    ensures
        r == lvl_content_ok(content@, parse_levels),
{
    let blocks = blocks_of(content);
    let ghost bs = level_blocks(content@);
    let n = blocks.len();
    if n == 0 {
        return false;
    }
    if !parse_levels {
        return true;
    }
    let mut k: usize = 1;
    while k < n
        invariant
            n == blocks@.len(),
            bs == char_vecs(blocks@),
            bs == level_blocks(content@),
            parse_levels,
            1 <= k <= n,
            blocks_ok(bs, k - 1),
            parse_blocks(bs, k - 1) is Ok,
        decreases n - k,
    {
        let text = string_of(&blocks[k]);
        assert(text@ == bs[k as int]);
        if !check_level_text(text.as_str()) {
            proof {
                lemma_blocks_ok_stops(bs, k as int, n - 1);
            }
            return false;
        }
        let parsed = Level::parse(k - 1, text.as_str());
        if parsed.is_err() {
            proof {
                lemma_blocks_ok_after_error(bs, k as int, n - 1);
            }
            return true;
        }
        k = k + 1;
    }
    true
}

/// Once a block cannot be handed to `Level::parse`, no later prefix of blocks is ok.
proof fn lemma_blocks_ok_stops(bs: Seq<Seq<char>>, k: int, j: int)
    requires
        1 <= k <= j,
        parse_blocks(bs, k - 1) is Ok,
        !level_text_ok(bs[k]),
    ensures
        !blocks_ok(bs, j),
    decreases j - k,
{
    if j > k {
        lemma_blocks_ok_stops(bs, k, j - 1);
    }
}

/// Once a block describes no level, every later prefix of blocks is ok as far as it was before.
proof fn lemma_blocks_ok_after_error(bs: Seq<Seq<char>>, k: int, j: int)
    requires
        1 <= k <= j,
        blocks_ok(bs, k),
        parse_blocks(bs, k) is Err,
    ensures
        blocks_ok(bs, j),
        parse_blocks(bs, j) is Err,
    decreases j - k,
{
    if j > k {
        lemma_blocks_ok_after_error(bs, k, j - 1);
    }
}

impl Collection {
    /// A collection holding the given levels.
    pub fn from_levels(name: &str, levels: &[Level]) -> (r: Collection)
        ensures
            r@ == (CollectionView {
                name: name@,
                short_name: name@,
                description: None,
                number_of_levels: levels@.len(),
                levels: level_views(levels@),
            }),
    {
        let mut v: Vec<Level> = Vec::new();
        let n = levels.len();
        for i in 0..n
            invariant
                n == levels@.len(),
                level_views(v@) == level_views(levels@.take(i as int)),
        {
            let ghost before = v@;
            v.push(levels[i].clone());
            proof {
                assert(level_views(v@) =~= level_views(before).push(levels@[i as int]@));
                assert(levels@.take(i + 1) =~= levels@.take(i as int).push(levels@[i as int]));
                assert(level_views(levels@.take(i + 1)) =~= level_views(levels@.take(i as int)).push(
                    levels@[i as int]@,
                ));
            }
        }
        assert(levels@.take(n as int) =~= levels@);
        Collection {
            name: name.to_owned(),
            short_name: name.to_owned(),
            description: None,
            number_of_levels: n,
            levels: v,
        }
    }

    /// Load a file containing a bunch of levels separated by an empty line, i.e. the usual ASCII
    /// format. The first block is the header: its first line is the collection's name.
    pub fn parse_lvl(short_name: &str, content: &str, parse_levels: bool) -> (r: Result<
        Collection,
        SokobanError,
    >)
        requires
            lvl_content_ok(content@, parse_levels),
        ensures
            match r {
                Ok(c) => spec_parse_lvl(short_name@, content@, parse_levels) == Ok::<
                    CollectionView,
                    SokobanError,
                >(c@),
                Err(e) => spec_parse_lvl(short_name@, content@, parse_levels) == Err::<
                    CollectionView,
                    SokobanError,
                >(e),
            },
    {
        let blocks = blocks_of(content);
        let ghost bs = level_blocks(content@);
        let n = blocks.len();
        let header = &blocks[0];
        assert(header@ == bs[0]);
        let lines = split_lines(header);
        proof {
            lemma_raw_lines_nonempty(bs[0]);
        }
        let mut first = lines[0].clone();
        assert(first@ =~= lines@[0]@);
        assert(first@ == raw_lines(bs[0])[0]);
        strip_carriage_return(&mut first);
        let name = string_of(&first);
        let description = Some(string_of(&trim_white_space(header)));
        if !parse_levels {
            let r = Collection {
                name,
                short_name: short_name.to_owned(),
                description,
                number_of_levels: n - 1,
                levels: Vec::new(),
            };
            assert(level_views(r.levels@) =~= Seq::<LevelView>::empty());
            return Ok(r);
        }
        let mut levels: Vec<Level> = Vec::new();
        let mut k: usize = 1;
        assert(level_views(levels@) =~= Seq::<LevelView>::empty());
        while k < n
            invariant
                n == blocks@.len(),
                bs == char_vecs(blocks@),
                bs == level_blocks(content@),
                parse_levels,
                1 <= k <= n,
                blocks_ok(bs, n - 1),
                parse_blocks(bs, k - 1) == Ok::<Seq<LevelView>, SokobanError>(level_views(levels@)),
                levels@.len() == k - 1,
            decreases n - k,
        {
            let text = string_of(&blocks[k]);
            assert(text@ == bs[k as int]);
            proof {
                lemma_blocks_ok_prefix(bs, k as int, n - 1);
            }
            let lvl = Level::parse(k - 1, text.as_str());
            match lvl {
                Ok(l) => {
                    let ghost before = levels@;
                    levels.push(l);
                    assert(level_views(levels@) =~= level_views(before).push(levels@.last()@));
                },
                Err(e) => {
                    proof {
                        lemma_parse_blocks_error(bs, k as int, n - 1);
                    }
                    return Err(e);
                },
            }
            k = k + 1;
        }
        let number_of_levels = levels.len();
        Ok(
            Collection {
                name,
                short_name: short_name.to_owned(),
                description,
                number_of_levels,
                levels,
            },
        )
    }

    // Accessor methods
    pub fn name(&self) -> (r: &str)
        ensures
            r@ == self.name@,
    {
        self.name.as_str()
    }

    pub fn short_name(&self) -> (r: &str)
        ensures
            r@ == self.short_name@,
    {
        self.short_name.as_str()
    }

    pub fn description(&self) -> (r: Option<&str>)
        ensures
            match (r, self.description) {
                (Some(a), Some(b)) => a@ == b@,
                (None, None) => true,
                _ => false,
            },
    {
        match &self.description {
            Some(x) => Some(x.as_str()),
            None => None,
        }
    }

    pub fn first_level(&self) -> (r: &Level)
        requires
            self.levels@.len() > 0,
        ensures
            *r == self.levels@[0],
    {
        &self.levels[0]
    }

    /// Get all levels.
    pub fn levels(&self) -> (r: &[Level])
        ensures
            r@ == self.levels@,
    {
        self.levels.as_slice()
    }

    pub fn number_of_levels(&self) -> (r: usize)
        ensures
            r == self.number_of_levels,
    {
        self.number_of_levels
    }
}

/// Every text has at least one line.
proof fn lemma_raw_lines_nonempty(s: Seq<char>)
    ensures
        raw_lines(s).len() >= 1,
    decreases s.len(),
{
    if s.len() > 0 {
        lemma_raw_lines_nonempty(s.drop_last());
    }
}

/// A prefix of blocks that is ok as a whole is ok up to each of its ends, and the block after a
/// parsed prefix can be handed to `Level::parse`.
proof fn lemma_blocks_ok_prefix(bs: Seq<Seq<char>>, k: int, j: int)
    requires
        1 <= k <= j,
        blocks_ok(bs, j),
        parse_blocks(bs, k - 1) is Ok,
    ensures
        level_text_ok(bs[k]),
    decreases j - k,
{
    if j > k {
        lemma_blocks_ok_prefix(bs, k, j - 1);
    }
}

/// An error in block `k` is the error of all the blocks.
proof fn lemma_parse_blocks_error(bs: Seq<Seq<char>>, k: int, j: int)
    requires
        1 <= k <= j,
        parse_blocks(bs, k) is Err,
    ensures
        parse_blocks(bs, j) == parse_blocks(bs, k),
    decreases j - k,
{
    if j > k {
        lemma_parse_blocks_error(bs, k, j - 1);
    }
}

} // verus!

verus! {

/// What the XML reader reports, as far as reading a collection needs it.
pub enum XmlToken {
    /// An opening tag, with the tag's name.
    Start(Vec<u8>),
    /// A closing tag, with the tag's name.
    End(Vec<u8>),
    /// Character data, unescaped and decoded, or the message of the decoding error.
    Text(Result<String, String>),
    /// The end of the document.
    Eof,
    /// The message of an error of the reader.
    Error(String),
    /// Any other event.
    Other,
}

/// An event of the XML reader as a mathematical value.
pub enum XmlTokenView {
    Start(Seq<u8>),
    End(Seq<u8>),
    Text(Result<Seq<char>, Seq<char>>),
    Eof,
    Error(Seq<char>),
    Other,
}

impl View for XmlToken {
    type V = XmlTokenView;

    open spec fn view(&self) -> XmlTokenView {
        match self {
            XmlToken::Start(n) => XmlTokenView::Start(n@),
            XmlToken::End(n) => XmlTokenView::End(n@),
            XmlToken::Text(r) => XmlTokenView::Text(
                match r {
                    Ok(s) => Ok(s@),
                    Err(m) => Err(m@),
                },
            ),
            XmlToken::Eof => XmlTokenView::Eof,
            XmlToken::Error(m) => XmlTokenView::Error(m@),
            XmlToken::Other => XmlTokenView::Other,
        }
    }
}

/// The events, each as a mathematical value.
pub open spec fn token_views(ts: Seq<XmlToken>) -> Seq<XmlTokenView> {
    ts.map_values(|t: XmlToken| t@)
}

/// The tags of the .slc format that matter.
#[derive(PartialEq, Eq, Structural, Clone, Copy, Debug)]
pub enum Tag {
    Title,
    Description,
    Email,
    Url,
    Level,
    Line,
    Other,
}

/// The tag with the given name.
pub open spec fn spec_tag(name: Seq<u8>) -> Tag {
    if name == seq![84u8, 105u8, 116u8, 108u8, 101u8] {
        Tag::Title
    } else if name == seq![68u8, 101u8, 115u8, 99u8, 114u8, 105u8, 112u8, 116u8, 105u8, 111u8, 110u8] {
        Tag::Description
    } else if name == seq![69u8, 109u8, 97u8, 105u8, 108u8] {
        Tag::Email
    } else if name == seq![85u8, 114u8, 108u8] {
        Tag::Url
    } else if name == seq![76u8, 101u8, 118u8, 101u8, 108u8] {
        Tag::Level
    } else if name == seq![76u8] {
        Tag::Line
    } else {
        Tag::Other
    }
}

/// Does `name` spell `tag`?
fn name_is(name: &Vec<u8>, tag: &Vec<u8>) -> (r: bool)
    ensures
        r == (name@ == tag@),
{
    if name.len() != tag.len() {
        return false;
    }
    let n = name.len();
    for i in 0..n
        invariant
            n == name@.len(),
            n == tag@.len(),
            forall|j: int| 0 <= j < i ==> name@[j] == tag@[j],
    {
        if name[i] != tag[i] {
            return false;
        }
    }
    assert(name@ =~= tag@);
    true
}

/// The tag with the given name.
fn tag_of(name: &Vec<u8>) -> (t: Tag)
    ensures
        t == spec_tag(name@),
{
    let title: Vec<u8> = vec![84u8, 105u8, 116u8, 108u8, 101u8];
    let description: Vec<u8> = vec![68u8, 101u8, 115u8, 99u8, 114u8, 105u8, 112u8, 116u8, 105u8, 111u8, 110u8];
    let email: Vec<u8> = vec![69u8, 109u8, 97u8, 105u8, 108u8];
    let url: Vec<u8> = vec![85u8, 114u8, 108u8];
    let level: Vec<u8> = vec![76u8, 101u8, 118u8, 101u8, 108u8];
    let line: Vec<u8> = vec![76u8];
    assert(title@ =~= seq![84u8, 105u8, 116u8, 108u8, 101u8]);
    assert(description@ =~= seq![68u8, 101u8, 115u8, 99u8, 114u8, 105u8, 112u8, 116u8, 105u8, 111u8, 110u8]);
    assert(email@ =~= seq![69u8, 109u8, 97u8, 105u8, 108u8]);
    assert(url@ =~= seq![85u8, 114u8, 108u8]);
    assert(level@ =~= seq![76u8, 101u8, 118u8, 101u8, 108u8]);
    assert(line@ =~= seq![76u8]);
    if name_is(name, &title) {
        Tag::Title
    } else if name_is(name, &description) {
        Tag::Description
    } else if name_is(name, &email) {
        Tag::Email
    } else if name_is(name, &url) {
        Tag::Url
    } else if name_is(name, &level) {
        Tag::Level
    } else if name_is(name, &line) {
        Tag::Line
    } else {
        Tag::Other
    }
}

/// Which text the reader is in.
#[derive(PartialEq, Eq, Structural, Clone, Copy, Debug)]
pub enum XmlState {
    Nothing,
    Title,
    Description,
    Email,
    Url,
    Line,
}

/// What has been read of a collection so far.
pub struct XmlReading {
    pub state: XmlState,
    pub title: String,
    pub description: String,
    pub email: String,
    pub url: String,
    pub levels: Vec<Level>,
    /// The number of levels read.
    pub num: usize,
    /// The lines of the level being read.
    pub level_lines: String,
}

/// What has been read of a collection so far, as a mathematical value.
pub struct XmlReadingView {
    pub state: XmlState,
    pub title: Seq<char>,
    pub description: Seq<char>,
    pub email: Seq<char>,
    pub url: Seq<char>,
    pub levels: Seq<LevelView>,
    pub num: nat,
    pub level_lines: Seq<char>,
}

impl View for XmlReading {
    type V = XmlReadingView;

    open spec fn view(&self) -> XmlReadingView {
        XmlReadingView {
            state: self.state,
            title: self.title@,
            description: self.description@,
            email: self.email@,
            url: self.url@,
            levels: level_views(self.levels@),
            num: self.num as nat,
            level_lines: self.level_lines@,
        }
    }
}

/// How reading goes on: still reading, stopped at the end of the document, stopped at a level
/// that describes none, or at a point where the reader cannot go on (a reader error, text that
/// cannot be decoded, or a level whose text `Level::parse` cannot be handed), with a message.
pub enum XmlRun {
    Reading(XmlReadingView),
    Stopped(XmlReadingView),
    Failed(SokobanError),
    Broken(Seq<char>),
}

/// The message for a level whose text cannot be read as a level.
pub open spec fn invalid_level_message() -> Seq<char> {
    seq!['i', 'n', 'v', 'a', 'l', 'i', 'd', ' ', 'l', 'e', 'v', 'e', 'l']
}

/// Reading one event.
pub open spec fn spec_xml_step(a: XmlReadingView, t: XmlTokenView, parse_levels: bool) -> XmlRun {
    match t {
        XmlTokenView::Start(n) => XmlRun::Reading(
            match spec_tag(n) {
                Tag::Title => XmlReadingView { state: XmlState::Title, title: Seq::empty(), ..a },
                Tag::Description => XmlReadingView { state: XmlState::Description, ..a },
                Tag::Email => XmlReadingView { state: XmlState::Email, ..a },
                Tag::Url => XmlReadingView { state: XmlState::Url, ..a },
                Tag::Level => XmlReadingView { level_lines: Seq::empty(), ..a },
                Tag::Line => XmlReadingView { state: XmlState::Line, ..a },
                Tag::Other => a,
            },
        ),
        XmlTokenView::End(n) => match spec_tag(n) {
            Tag::Title | Tag::Description | Tag::Email | Tag::Url => XmlRun::Reading(
                XmlReadingView { state: XmlState::Nothing, ..a },
            ),
            Tag::Level => if parse_levels {
                if !level_text_ok(a.level_lines) {
                    XmlRun::Broken(invalid_level_message())
                } else {
                    match spec_parse_level(a.num, a.level_lines) {
                        Ok(l) => XmlRun::Reading(
                            XmlReadingView { levels: a.levels.push(l), num: a.num + 1, ..a },
                        ),
                        Err(e) => XmlRun::Failed(e),
                    }
                }
            } else {
                XmlRun::Reading(XmlReadingView { num: a.num + 1, ..a })
            },
            Tag::Line => XmlRun::Reading(
                XmlReadingView { state: XmlState::Nothing, level_lines: a.level_lines.push('\n'), ..a },
            ),
            Tag::Other => XmlRun::Reading(a),
        },
        XmlTokenView::Text(r) => if a.state == XmlState::Nothing || (a.state == XmlState::Line
            && !parse_levels) {
            XmlRun::Reading(a)
        } else {
            match r {
                Err(m) => XmlRun::Broken(m),
                Ok(s) => XmlRun::Reading(
                    match a.state {
                        XmlState::Title => XmlReadingView { title: a.title + s, ..a },
                        XmlState::Description => XmlReadingView {
                            description: a.description + s,
                            ..a
                        },
                        XmlState::Email => XmlReadingView { email: a.email + s, ..a },
                        XmlState::Url => XmlReadingView { url: a.url + s, ..a },
                        _ => XmlReadingView { level_lines: a.level_lines + s, ..a },
                    },
                ),
            }
        },
        XmlTokenView::Eof => XmlRun::Stopped(a),
        XmlTokenView::Error(m) => XmlRun::Broken(m),
        XmlTokenView::Other => XmlRun::Reading(a),
    }
}

/// Nothing read yet.
pub open spec fn xml_start() -> XmlReadingView {
    XmlReadingView {
        state: XmlState::Nothing,
        title: Seq::empty(),
        description: Seq::empty(),
        email: Seq::empty(),
        url: Seq::empty(),
        levels: Seq::empty(),
        num: 0,
        level_lines: Seq::empty(),
    }
}

/// Reading the events `ts` one after the other until reading stops.
pub open spec fn xml_run(ts: Seq<XmlTokenView>, parse_levels: bool) -> XmlRun
    decreases ts.len(),
{
    if ts.len() == 0 {
        XmlRun::Reading(xml_start())
    } else {
        match xml_run(ts.drop_last(), parse_levels) {
            XmlRun::Reading(a) => spec_xml_step(a, ts.last(), parse_levels),
            other => other,
        }
    }
}

/// The outcome of reading a collection file: the collection, the error of a level that
/// describes none, or the message of why reading could not go on.
pub enum XmlOutcome {
    Done(Collection),
    Failed(SokobanError),
    Broken(String),
}

/// The collection read, once reading has stopped.
pub open spec fn xml_collection(short_name: Seq<char>, a: XmlReadingView) -> CollectionView {
    CollectionView {
        name: a.title,
        short_name,
        description: if a.description.len() == 0 {
            None
        } else {
            Some(a.description)
        },
        number_of_levels: a.num,
        levels: a.levels,
    }
}

/// Does the outcome match the run?
pub open spec fn outcome_matches(short_name: Seq<char>, o: XmlOutcome, run: XmlRun) -> bool {
    match run {
        XmlRun::Reading(a) => o matches XmlOutcome::Done(c) && c@ == xml_collection(short_name, a),
        XmlRun::Stopped(a) => o matches XmlOutcome::Done(c) && c@ == xml_collection(short_name, a),
        XmlRun::Failed(e) => o == XmlOutcome::Failed(e),
        XmlRun::Broken(m) => o matches XmlOutcome::Broken(s) && s@ == m,
    }
}

} // verus!

verus! {

/// How reading goes on after one event.
pub enum XmlStep {
    Reading,
    Stopped,
    Failed(SokobanError),
    Broken(String),
}

/// Read one event.
fn xml_step(a: &mut XmlReading, t: &XmlToken, parse_levels: bool) -> (r: XmlStep)
    requires
        old(a).num < usize::MAX,
    ensures
        match spec_xml_step(old(a)@, t@, parse_levels) {
            XmlRun::Reading(v) => r is Reading && final(a)@ == v,
            XmlRun::Stopped(v) => r is Stopped && final(a)@ == v,
            XmlRun::Failed(e) => r == XmlStep::Failed(e),
            XmlRun::Broken(m) => r matches XmlStep::Broken(s) && s@ == m,
        },
{
    match t {
        XmlToken::Start(n) => {
            match tag_of(n) {
                Tag::Title => {
                    a.state = XmlState::Title;
                    a.title = String::new();
                },
                Tag::Description => {
                    a.state = XmlState::Description;
                },
                Tag::Email => {
                    a.state = XmlState::Email;
                },
                Tag::Url => {
                    a.state = XmlState::Url;
                },
                Tag::Level => {
                    a.level_lines = String::new();
                },
                Tag::Line => {
                    a.state = XmlState::Line;
                },
                Tag::Other => {},
            }
            XmlStep::Reading
        },
        XmlToken::End(n) => {
            match tag_of(n) {
                Tag::Title | Tag::Description | Tag::Email | Tag::Url => {
                    a.state = XmlState::Nothing;
                },
                Tag::Level => {
                    if parse_levels {
                        if !check_level_text(a.level_lines.as_str()) {
                            let msg: Vec<char> = vec![
                                'i',
                                'n',
                                'v',
                                'a',
                                'l',
                                'i',
                                'd',
                                ' ',
                                'l',
                                'e',
                                'v',
                                'e',
                                'l',
                            ];
                            let s = string_of(&msg);
                            assert(msg@ =~= invalid_level_message());
                            return XmlStep::Broken(s);
                        }
                        match Level::parse(a.num, a.level_lines.as_str()) {
                            Ok(l) => {
                                let ghost before = a.levels@;
                                a.levels.push(l);
                                assert(level_views(a.levels@) =~= level_views(before).push(
                                    a.levels@.last()@,
                                ));
                            },
                            Err(e) => {
                                return XmlStep::Failed(e);
                            },
                        }
                    }
                    a.num = a.num + 1;
                },
                Tag::Line => {
                    a.state = XmlState::Nothing;
                    a.level_lines.push('\n');
                },
                Tag::Other => {},
            }
            XmlStep::Reading
        },
        XmlToken::Text(r) => {
            if a.state == XmlState::Nothing || (a.state == XmlState::Line && !parse_levels) {
                return XmlStep::Reading;
            }
            match r {
                Err(m) => XmlStep::Broken(m.clone()),
                Ok(s) => {
                    match a.state {
                        XmlState::Title => a.title.append(s.as_str()),
                        XmlState::Description => a.description.append(s.as_str()),
                        XmlState::Email => a.email.append(s.as_str()),
                        XmlState::Url => a.url.append(s.as_str()),
                        _ => a.level_lines.append(s.as_str()),
                    }
                    XmlStep::Reading
                },
            }
        },
        XmlToken::Eof => XmlStep::Stopped,
        XmlToken::Error(m) => XmlStep::Broken(m.clone()),
        XmlToken::Other => XmlStep::Reading,
    }
}

/// The name of the tag that starts and ends a level.
pub open spec fn level_tag() -> Seq<u8> {
    seq![76u8, 101u8, 118u8, 101u8, 108u8]
}

/// A level starts with no text: reading its start tag empties the text gathered for a level,
/// whatever was gathered before, and keeps everything else that has been read.
pub proof fn lemma_level_start_empties_text(a: XmlReadingView, parse_levels: bool)
    ensures
        spec_xml_step(a, XmlTokenView::Start(level_tag()), parse_levels) matches XmlRun::Reading(b)
            && b.level_lines.len() == 0 && b.state == a.state && b.title == a.title
            && b.description == a.description && b.email == a.email && b.url == a.url && b.levels
            == a.levels && b.num == a.num,
{
    assert(spec_tag(level_tag()) == Tag::Level);
}

/// However the events before it went, reading goes on after the start tag of a level with no
/// text gathered for the level, and with the levels read before kept.
pub proof fn lemma_level_text_starts_empty(ts: Seq<XmlTokenView>, parse_levels: bool)
    requires
        xml_run(ts, parse_levels) is Reading,
    ensures
        ({
            let a = xml_run(ts, parse_levels)->Reading_0;
            xml_run(ts.push(XmlTokenView::Start(level_tag())), parse_levels) matches XmlRun::Reading(b)
                && b.level_lines.len() == 0 && b.levels == a.levels && b.num == a.num
        }),
{
    let a = xml_run(ts, parse_levels)->Reading_0;
    let t = ts.push(XmlTokenView::Start(level_tag()));
    assert(t.drop_last() =~= ts);
    lemma_level_start_empties_text(a, parse_levels);
}

/// Once reading has stopped, more events change nothing.
proof fn lemma_xml_run_stays(ts: Seq<XmlTokenView>, k: int, parse_levels: bool)
    requires
        0 <= k <= ts.len(),
        !(xml_run(ts.take(k), parse_levels) is Reading),
    ensures
        xml_run(ts, parse_levels) == xml_run(ts.take(k), parse_levels),
    decreases ts.len() - k,
{
    if k < ts.len() {
        assert(ts.drop_last().take(k) =~= ts.take(k));
        lemma_xml_run_stays(ts.drop_last(), k, parse_levels);
    } else {
        assert(ts.take(k) =~= ts);
    }
}

/// The collection read.
fn collection_of(short_name: &str, a: XmlReading) -> (r: Collection)
    ensures
        r@ == xml_collection(short_name@, a@),
{
    let description = if a.description.as_str().is_empty() {
        None
    } else {
        Some(a.description)
    };
    Collection {
        name: a.title,
        short_name: short_name.to_owned(),
        description,
        number_of_levels: a.num,
        levels: a.levels,
    }
}

/// Read a collection from the events of an .slc file.
pub fn parse_xml_tokens(short_name: &str, tokens: &[XmlToken], parse_levels: bool) -> (r:
    XmlOutcome)
    requires
        tokens@.len() < usize::MAX,
    ensures
        outcome_matches(short_name@, r, xml_run(token_views(tokens@), parse_levels)),
{
    let ghost tv = token_views(tokens@);
    let mut a = XmlReading {
        state: XmlState::Nothing,
        title: String::new(),
        description: String::new(),
        email: String::new(),
        url: String::new(),
        levels: Vec::new(),
        num: 0,
        level_lines: String::new(),
    };
    assert(a@ == xml_start()) by {
        assert(level_views(a.levels@) =~= Seq::<LevelView>::empty());
    }
    let n = tokens.len();
    let mut i: usize = 0;
    assert(tv.take(0) =~= Seq::<XmlTokenView>::empty());
    while i < n
        invariant
            n == tokens@.len(),
            tv == token_views(tokens@),
            n < usize::MAX,
            i <= n,
            a.num <= i,
            xml_run(tv.take(i as int), parse_levels) == XmlRun::Reading(a@),
        decreases n - i,
    {
        assert(tv.take(i + 1).drop_last() =~= tv.take(i as int));
        assert(tv.take(i + 1).last() == tokens@[i as int]@);
        match xml_step(&mut a, &tokens[i], parse_levels) {
            XmlStep::Reading => {},
            XmlStep::Stopped => {
                proof {
                    lemma_xml_run_stays(tv, i + 1, parse_levels);
                }
                return XmlOutcome::Done(collection_of(short_name, a));
            },
            XmlStep::Failed(e) => {
                proof {
                    lemma_xml_run_stays(tv, i + 1, parse_levels);
                }
                return XmlOutcome::Failed(e);
            },
            XmlStep::Broken(m) => {
                proof {
                    lemma_xml_run_stays(tv, i + 1, parse_levels);
                }
                return XmlOutcome::Broken(m);
            },
        }
        i = i + 1;
    }
    assert(tv.take(n as int) =~= tv);
    XmlOutcome::Done(collection_of(short_name, a))
}

} // verus!

verus! {

/// A reader of the XML crate over its own copy of the bytes, with the buffer it reads events
/// into. Verus cannot declare `quick_xml::Reader` itself (its parameter is bound by `BufRead`),
/// so the reader is held here, out of Verus's sight.
#[verifier::external_body]
pub struct XmlReader {
    reader: quick_xml::Reader<std::io::Cursor<Vec<u8>>>,
    buf: Vec<u8>,
}

/// The `k`-th event (counting from 0) that the XML crate's reader reports for a document made of
/// the bytes `content`, as `xml_next_token` hands it on.
pub uninterp spec fn xml_event(content: Seq<u8>, k: nat) -> XmlTokenView;

/// The XML crate's reader together with a model of it: the bytes it reads, and how many events
/// it has reported so far. Only `xml_reader` and `xml_next_token` set the model.
pub struct XmlEvents {
    reader: XmlReader,
    content: Ghost<Seq<u8>>,
    read: Ghost<nat>,
}

impl XmlEvents {
    /// The bytes the reader reads.
    pub closed spec fn content(&self) -> Seq<u8> {
        self.content@
    }

    /// How many events the reader has reported.
    pub closed spec fn read(&self) -> nat {
        self.read@
    }
}

/// An XML reader over a copy of the bytes, made by `quick_xml::Reader::from_reader`. The model
/// records the bytes, and that no event has been read yet.
#[verifier::external_body]
fn xml_reader(content: &[u8]) -> (r: XmlEvents)
    ensures
        r.content() == content@,
        r.read() == 0,
{
    XmlEvents {
        reader: XmlReader {
            reader: quick_xml::Reader::from_reader(std::io::Cursor::new(content.to_vec())),
            buf: Vec::new(),
        },
        content: Ghost(content@),
        read: Ghost(0),
    }
}

/// The next event of the reader, read by `quick_xml::Reader::read_event`. Start and end tags
/// become their names (`BytesStart::name`, `BytesEnd::name`), text is unescaped and decoded by
/// `BytesText::unescape_and_decode`, and errors become their messages. Which event comes is a
/// function of the bytes read and of how many events came before it: `xml_event` names it.
#[verifier::external_body]
fn xml_next_token(r: &mut XmlEvents) -> (t: XmlToken)
    ensures
        final(r).content() == old(r).content(),
        final(r).read() == old(r).read() + 1,
        t@ == xml_event(old(r).content(), old(r).read()),
{
    r.read = Ghost(r.read@ + 1);
    let x = &mut r.reader;
    match x.reader.read_event(&mut x.buf) {
        Ok(quick_xml::events::Event::Start(e)) => XmlToken::Start(e.name().to_vec()),
        Ok(quick_xml::events::Event::End(e)) => XmlToken::End(e.name().to_vec()),
        Ok(quick_xml::events::Event::Text(e)) => XmlToken::Text(
            e.unescape_and_decode(&x.reader).map_err(|err| err.to_string()),
        ),
        Ok(quick_xml::events::Event::Eof) => XmlToken::Eof,
        Err(err) => XmlToken::Error(err.to_string()),
        Ok(_) => XmlToken::Other,
    }
}

/// The events read from a document: those of the first `content.len() + 1` reported for it.
/// Every event but the end of the document takes at least one byte, so they reach the end of
/// the document or an error.
pub open spec fn xml_document(content: Seq<u8>) -> Seq<XmlTokenView> {
    Seq::new((content.len() + 1) as nat, |k: int| xml_event(content, k as nat))
}

/// The result of reading a collection, as `Collection::parse_xml` returns it.
pub open spec fn xml_result_matches(
    short_name: Seq<char>,
    r: Result<Collection, SokobanError>,
    run: XmlRun,
) -> bool {
    match run {
        XmlRun::Reading(a) => r matches Ok(c) && c@ == xml_collection(short_name, a),
        XmlRun::Stopped(a) => r matches Ok(c) && c@ == xml_collection(short_name, a),
        XmlRun::Failed(e) => r == Err::<Collection, SokobanError>(e),
        XmlRun::Broken(m) => r matches Err(SokobanError::XmlError(s)) && s@ == m,
    }
}

/// Turn the outcome of reading into the result of loading a collection: a reader error, text that
/// cannot be decoded and an unreadable level become XML errors.
pub fn xml_outcome_result(o: XmlOutcome) -> (r: Result<Collection, SokobanError>)
    ensures
        forall|short_name: Seq<char>, run: XmlRun|
            outcome_matches(short_name, o, run) ==> xml_result_matches(short_name, r, run),
{
    match o {
        XmlOutcome::Done(c) => Ok(c),
        XmlOutcome::Failed(e) => Err(e),
        XmlOutcome::Broken(m) => Err(SokobanError::XmlError(m)),
    }
}

impl Collection {
    /// Load a level set in the XML-based .slc format: the title and description of the
    /// collection, and the levels, each given line by line.
    pub fn parse_xml(short_name: &str, content: &[u8], parse_levels: bool) -> (r: Result<
        Collection,
        SokobanError,
    >)
        requires
            content@.len() + 1 < usize::MAX,
        ensures
            xml_result_matches(
                short_name@,
                r,
                xml_run(xml_document(content@), parse_levels),
            ),
    {
        let ghost doc = xml_document(content@);
        let mut reader = xml_reader(content);
        let mut tokens: Vec<XmlToken> = Vec::new();
        let n = content.len();
        let mut k: usize = 0;
        let mut done = false;
        while k <= n && !done
            invariant
                n == content@.len(),
                n + 1 < usize::MAX,
                doc == xml_document(content@),
                k <= n + 1,
                tokens@.len() == k,
                reader.content() == content@,
                reader.read() == k,
                token_views(tokens@) == doc.take(k as int),
                done ==> !(xml_run(doc.take(k as int), parse_levels) is Reading),
            decreases n + 1 - k,
        {
            let t = xml_next_token(&mut reader);
            let last = match t {
                XmlToken::Eof | XmlToken::Error(_) => true,
                _ => false,
            };
            let ghost before = tokens@;
            tokens.push(t);
            proof {
                assert(token_views(tokens@) =~= doc.take(k + 1));
                assert(doc.take(k + 1).drop_last() =~= doc.take(k as int));
            }
            k = k + 1;
            done = last;
        }
        proof {
            if done {
                lemma_xml_run_stays(doc, k as int, parse_levels);
            } else {
                assert(doc.take(k as int) =~= doc);
            }
        }
        let o = parse_xml_tokens(short_name, tokens.as_slice(), parse_levels);
        xml_outcome_result(o)
    }
}

} // verus!
