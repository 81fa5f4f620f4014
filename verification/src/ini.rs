//! A line-oriented INI tokenizer.
//!
//! The tokenizer walks a borrowed text buffer line by line and hands back one
//! item per non-blank, non-comment line: a section header, a bare key, or a
//! key/value pair. Every item borrows its text from the caller's buffer; the
//! tokenizer never copies, never mutates, and never fails — malformed-looking
//! lines degrade to one of the three item shapes instead of erroring.

use vstd::prelude::*;

verus! {

/// Whitespace as the tokenizer trims it: the ASCII whitespace characters.
pub open spec fn is_space(c: char) -> bool {
    c == ' ' || c == '\t' || c == '\n' || c == '\r' || c == '\x0B' || c == '\x0C'
}

/// `s` with its leading whitespace removed.
pub open spec fn trim_start(s: Seq<char>) -> Seq<char>
    decreases s.len(),
{
    if s.len() == 0 {
        s
    } else if is_space(s[0]) {
        trim_start(s.drop_first())
    } else {
        s
    }
}

/// `s` with its trailing whitespace removed.
pub open spec fn trim_end(s: Seq<char>) -> Seq<char>
    decreases s.len(),
{
    if s.len() == 0 {
        s
    } else if is_space(s.last()) {
        trim_end(s.drop_last())
    } else {
        s
    }
}

/// `s` with whitespace removed from both ends.
pub open spec fn trim(s: Seq<char>) -> Seq<char> {
    trim_end(trim_start(s))
}

/// The index of the first occurrence of `c` in `s`, or `s.len()` if `s` does
/// not contain `c`.
pub open spec fn find_char(s: Seq<char>, c: char) -> int
    decreases s.len(),
{
    if s.len() == 0 {
        0
    } else if s[0] == c {
        0
    } else {
        1 + find_char(s.drop_first(), c)
    }
}

proof fn lemma_find_char_le_len(s: Seq<char>, c: char)
    ensures
        0 <= find_char(s, c) <= s.len(),
    decreases s.len(),
{
    if s.len() == 0 {
    } else if s[0] == c {
    } else {
        lemma_find_char_le_len(s.drop_first(), c);
    }
}

/// `find_char` is pinned down by its characteristic properties: an index at or
/// before which `c` does not occur, and at which `c` stands unless it is the end.
proof fn lemma_find_char_at(s: Seq<char>, c: char, i: int)
    requires
        0 <= i <= s.len(),
        forall|j: int| 0 <= j < i ==> s[j] != c,
        i < s.len() ==> s[i] == c,
    ensures
        find_char(s, c) == i,
    decreases s.len(),
{
    if s.len() == 0 {
    } else if s[0] == c {
    } else {
        lemma_find_char_at(s.drop_first(), c, i - 1);
    }
}

/// The mathematical shape of one parsed item.
#[verifier::ext_equal]
pub enum ItemModel {
    Section(Seq<char>),
    Key(Seq<char>),
    KeyValue(Seq<char>, Seq<char>),
}

/// The item that one already-trimmed line produces, or `None` for a blank or
/// comment line. The section name is the text strictly between the brackets,
/// not trimmed again; key and value are trimmed independently after splitting
/// at the first `=`.
pub open spec fn item_of_trimmed(line: Seq<char>) -> Option<ItemModel> {
    if line.len() == 0 || line[0] == '#' {
        None
    } else if line[0] == '[' && line.last() == ']' {
        Some(ItemModel::Section(line.subrange(1, line.len() - 1)))
    } else {
        let eq = find_char(line, '=');
        if eq == line.len() {
            Some(ItemModel::Key(line))
        } else {
            Some(ItemModel::KeyValue(
                trim(line.subrange(0, eq)),
                trim(line.subrange(eq + 1, line.len() as int)),
            ))
        }
    }
}

/// The item, if any, of one raw source line: the whole line is trimmed first.
pub open spec fn line_item(raw: Seq<char>) -> Option<ItemModel> {
    item_of_trimmed(trim(raw))
}

/// A raw line that produces no item: blank, or starting with `#` once trimmed.
pub open spec fn is_skipped_line(raw: Seq<char>) -> bool {
    trim(raw).len() == 0 || trim(raw)[0] == '#'
}

#[via_fn]
proof fn lines_of_decreases(text: Seq<char>) {
    lemma_find_char_le_len(text, '\n');
}

/// The source split at newline characters, as lines: a final newline closes
/// the last line rather than opening an empty one.
pub open spec fn lines_of(text: Seq<char>) -> Seq<Seq<char>>
    decreases text.len(),
    via lines_of_decreases
{
    if text.len() == 0 {
        Seq::empty()
    } else {
        let nl = find_char(text, '\n');
        let line = text.subrange(0, nl);
        if nl == text.len() {
            seq![line]
        } else {
            seq![line] + lines_of(text.subrange(nl + 1, text.len() as int))
        }
    }
}

/// The items of a sequence of raw lines, in source order, with blank and
/// comment lines skipped.
pub open spec fn items_of_lines(ls: Seq<Seq<char>>) -> Seq<ItemModel>
    decreases ls.len(),
{
    if ls.len() == 0 {
        Seq::empty()
    } else {
        match line_item(ls[0]) {
            Some(item) => seq![item] + items_of_lines(ls.drop_first()),
            None => items_of_lines(ls.drop_first()),
        }
    }
}

/// Every item the tokenizer emits for `text`, in source order.
pub open spec fn items_of(text: Seq<char>) -> Seq<ItemModel> {
    items_of_lines(lines_of(text))
}

/// How many of the raw lines in `ls` are skipped: blank or comment lines.
pub open spec fn skipped_count(ls: Seq<Seq<char>>) -> nat
    decreases ls.len(),
{
    if ls.len() == 0 {
        0
    } else {
        (if is_skipped_line(ls[0]) {
            1nat
        } else {
            0
        }) + skipped_count(ls.drop_first())
    }
}

proof fn lemma_item_count_lines(ls: Seq<Seq<char>>)
    ensures
        items_of_lines(ls).len() + skipped_count(ls) == ls.len(),
    decreases ls.len(),
{
    if ls.len() == 0 {
    } else {
        lemma_item_count_lines(ls.drop_first());
        assert(is_skipped_line(ls[0]) <==> line_item(ls[0]) is None);
    }
}

/// Every source line yields exactly one item unless it is blank or a comment:
/// the number of emitted items is the number of source lines less the number
/// of skipped lines. Items stand in `items_of` in source line order.
pub proof fn lemma_item_count(text: Seq<char>)
    ensures
        items_of(text).len() + skipped_count(lines_of(text)) == lines_of(text).len(),
{
    lemma_item_count_lines(lines_of(text));
}

/// One parsed unit of the source: a section header, a bare key, or a
/// key/value pair. Each variant borrows its text from the caller's buffer.
#[derive(Debug, Clone)]
pub enum Item<'a> {
    Section(&'a str),
    Key(&'a str),
    KeyValue(&'a str, &'a str),
}

impl<'a> View for Item<'a> {
    type V = ItemModel;

    open spec fn view(&self) -> ItemModel {
        match *self {
            Item::Section(name) => ItemModel::Section(name@),
            Item::Key(name) => ItemModel::Key(name@),
            Item::KeyValue(key, value) => ItemModel::KeyValue(key@, value@),
        }
    }
}

/// Whether `c` is whitespace to the tokenizer.
fn is_space_char(c: char) -> (b: bool)
    ensures
        b == is_space(c),
{
    c == ' ' || c == '\t' || c == '\n' || c == '\r' || c == '\x0B' || c == '\x0C'
}

/// The index of the first `c` in `s` at or after `from`, or the length of `s`
/// if there is none.
fn find_char_from(s: &str, from: usize, c: char) -> (i: usize)
    requires
        from <= s@.len(),
    ensures
        from <= i <= s@.len(),
        i < s@.len() ==> s@[i as int] == c,
        forall|j: int| from <= j < i ==> s@[j] != c,
{
    let n: usize = s.unicode_len();
    let mut i: usize = from;
    while i < n
        invariant
            from <= i <= n,
            n == s@.len(),
            forall|j: int| from <= j < i ==> s@[j] != c,
        decreases n - i,
    {
        if s.get_char(i) == c {
            return i;
        }
        i = i + 1;
    }
    i
}

proof fn lemma_trim_start_at(s: Seq<char>, a: int)
    requires
        0 <= a <= s.len(),
        forall|j: int| 0 <= j < a ==> is_space(s[j]),
        a < s.len() ==> !is_space(s[a]),
    ensures
        trim_start(s) == s.subrange(a, s.len() as int),
    decreases s.len(),
{
    if s.len() == 0 {
        assert(trim_start(s) =~= s.subrange(0, 0));
    } else if is_space(s[0]) {
        lemma_trim_start_at(s.drop_first(), a - 1);
        assert(s.drop_first().subrange(a - 1, s.drop_first().len() as int) =~= s.subrange(
            a,
            s.len() as int,
        ));
    } else {
        assert(s.subrange(0, s.len() as int) =~= s);
    }
}

proof fn lemma_trim_end_at(s: Seq<char>, e: int)
    requires
        0 <= e <= s.len(),
        forall|j: int| e <= j < s.len() ==> is_space(s[j]),
        e > 0 ==> !is_space(s[e - 1]),
    ensures
        trim_end(s) == s.subrange(0, e),
    decreases s.len(),
{
    if s.len() == 0 {
        assert(trim_end(s) =~= s.subrange(0, 0));
    } else if is_space(s.last()) {
        lemma_trim_end_at(s.drop_last(), e);
        assert(s.drop_last().subrange(0, e) =~= s.subrange(0, e));
    } else {
        assert(s.subrange(0, s.len() as int) =~= s);
    }
}

/// The line with leading and trailing whitespace removed, as a view into the
/// same buffer.
fn trim_str<'b>(s: &'b str) -> (t: &'b str)
    ensures
        t@ == trim(s@),
{
    let n: usize = s.unicode_len();
    let mut a: usize = 0;
    loop
        invariant
            a <= n,
            n == s@.len(),
            forall|j: int| 0 <= j < a ==> is_space(s@[j]),
        ensures
            a <= n,
            n == s@.len(),
            forall|j: int| 0 <= j < a ==> is_space(s@[j]),
            a < n ==> !is_space(s@[a as int]),
        decreases n - a,
    {
        if a == n {
            break;
        }
        if !is_space_char(s.get_char(a)) {
            break;
        }
        a = a + 1;
    }
    if a == n {
        let t = s.substring_char(n, n);
        proof {
            lemma_trim_start_at(s@, a as int);
            lemma_trim_end_at(trim_start(s@), 0);
            assert(trim_start(s@).subrange(0, 0) =~= s@.subrange(n as int, n as int));
        }
        return t;
    }
    let mut b: usize = n - 1;
    loop
        invariant
            a <= b < n,
            n == s@.len(),
            !is_space(s@[a as int]),
            forall|j: int| b < j < n ==> is_space(s@[j]),
        ensures
            a <= b < n,
            !is_space(s@[b as int]),
            forall|j: int| b < j < n ==> is_space(s@[j]),
        decreases b,
    {
        if !is_space_char(s.get_char(b)) {
            break;
        }
        b = b - 1;
    }
    let t = s.substring_char(a, b + 1);
    proof {
        lemma_trim_start_at(s@, a as int);
        let u = s@.subrange(a as int, s@.len() as int);
        lemma_trim_end_at(u, b + 1 - a);
        assert(u.subrange(0, b + 1 - a) =~= s@.subrange(a as int, b as int + 1));
    }
    t
}

/// Parse one already-trimmed line into the item it produces, if any.
fn item_of_line<'b>(line: &'b str) -> (r: Option<Item<'b>>)
    ensures
        match r {
            Some(item) => item_of_trimmed(line@) == Some(item@),
            None => item_of_trimmed(line@) is None,
        },
{
    let n: usize = line.unicode_len();
    if n == 0 {
        return None;
    }
    let first = line.get_char(0);
    if first == '#' {
        return None;
    }
    if first == '[' && line.get_char(n - 1) == ']' {
        let name = line.substring_char(1, n - 1);
        return Some(Item::Section(name));
    }
    let eq: usize = find_char_from(line, 0, '=');
    proof {
        lemma_find_char_at(line@, '=', eq as int);
    }
    if eq == n {
        return Some(Item::Key(line));
    }
    let key = trim_str(line.substring_char(0, eq));
    let value = trim_str(line.substring_char(eq + 1, n));
    Some(Item::KeyValue(key, value))
}

/// Splitting off the first line: the items of a non-empty text are the item
/// of its first line, if that line yields one, followed by the items of the
/// text after the first newline.
proof fn lemma_items_step(text: Seq<char>)
    requires
        text.len() > 0,
    ensures
        ({
            let nl = find_char(text, '\n');
            let line = text.subrange(0, nl);
            let rest = if nl < text.len() {
                text.subrange(nl + 1, text.len() as int)
            } else {
                Seq::<char>::empty()
            };
            items_of(text) == match line_item(line) {
                Some(item) => seq![item] + items_of(rest),
                None => items_of(rest),
            }
        }),
{
    lemma_find_char_le_len(text, '\n');
    let nl = find_char(text, '\n');
    let line = text.subrange(0, nl);
    let rest = if nl < text.len() {
        text.subrange(nl + 1, text.len() as int)
    } else {
        Seq::<char>::empty()
    };
    let ls = lines_of(text);
    if nl == text.len() {
        assert(ls =~= seq![line] + lines_of(rest));
    }
    assert(ls[0] == line);
    assert(ls.drop_first() =~= lines_of(rest));
    if line_item(line) is Some {
        assert(items_of_lines(ls) == seq![line_item(line)->Some_0] + items_of_lines(
            ls.drop_first(),
        ));
    }
}

/// A pull-based cursor over one text buffer: it borrows the buffer for its
/// whole lifetime and hands back one item per remaining non-blank,
/// non-comment line, in source order, until the buffer is exhausted.
pub struct IniParser<'l> {
    file: &'l str,
    pos: usize,
}

impl<'l> IniParser<'l> {
    /// The full source text the tokenizer was built over.
    pub closed spec fn src(self) -> Seq<char> {
        self.file@
    }

    /// The cursor never runs past the end of the source.
    pub closed spec fn wf(self) -> bool {
        self.pos <= self.file@.len()
    }

    /// The part of the source that is not consumed yet.
    pub closed spec fn rest(self) -> Seq<char> {
        self.file@.subrange(self.pos as int, self.file@.len() as int)
    }

    /// The items the tokenizer has not produced yet.
    pub open spec fn remaining(self) -> Seq<ItemModel> {
        items_of(self.rest())
    }

    /// A fresh tokenizer over `file`, with every item of `file` still to come.
    pub fn new(file: &'l str) -> (parser: Self)
        ensures
            parser.wf(),
            parser.src() == file@,
            parser.remaining() == items_of(file@),
    {
        let parser = IniParser { file, pos: 0 };
        proof {
            assert(parser.rest() =~= file@);
        }
        parser
    }

    /// Produce the next item, or `None` once no line that yields one remains.
    ///
    /// Exhaustion is stable: whenever `None` comes back, no items remain, the
    /// tokenizer stays exhausted, and every later call returns `None` again.
    pub fn next_item(&mut self) -> (r: Option<Item<'l>>)
        requires
            old(self).wf(),
        ensures
            final(self).wf(),
            final(self).src() == old(self).src(),
            match r {
                Some(item) => old(self).remaining() == seq![item@] + final(self).remaining(),
                None => final(self).remaining() == Seq::<ItemModel>::empty(),
            },
            r is None <==> old(self).remaining().len() == 0,
    {
        let n: usize = self.file.unicode_len();
        loop
            invariant
                self.pos <= n,
                n == self.file@.len(),
                self.file@ == old(self).file@,
                self.remaining() == old(self).remaining(),
            decreases n - self.pos,
        {
            if self.pos == n {
                proof {
                    assert(self.rest() =~= Seq::<char>::empty());
                    assert(lines_of(Seq::<char>::empty()) =~= Seq::<Seq<char>>::empty());
                }
                return None;
            }
            let nl: usize = find_char_from(self.file, self.pos, '\n');
            let raw = self.file.substring_char(self.pos, nl);
            let ghost prev_rest = self.rest();
            let ghost prev_pos = self.pos as int;
            self.pos = if nl < n {
                nl + 1
            } else {
                nl
            };
            proof {
                lemma_find_char_at(prev_rest, '\n', nl - prev_pos);
                lemma_items_step(prev_rest);
                assert(raw@ =~= prev_rest.subrange(0, nl - prev_pos));
                if nl < n {
                    assert(self.rest() =~= prev_rest.subrange(
                        nl - prev_pos + 1,
                        prev_rest.len() as int,
                    ));
                } else {
                    assert(self.rest() =~= Seq::<char>::empty());
                }
            }
            let line = trim_str(raw);
            match item_of_line(line) {
                Some(item) => {
                    return Some(item);
                },
                None => {},
            }
        }
    }
}

proof fn lemma_trim_start_head(s: Seq<char>)
    ensures
        trim_start(s).len() > 0 ==> !is_space(trim_start(s)[0]),
    decreases s.len(),
{
    if s.len() == 0 {
    } else if is_space(s[0]) {
        lemma_trim_start_head(s.drop_first());
    }
}

proof fn lemma_trim_end_last(s: Seq<char>)
    ensures
        trim_end(s).len() > 0 ==> !is_space(trim_end(s).last()),
    decreases s.len(),
{
    if s.len() == 0 {
    } else if is_space(s.last()) {
        lemma_trim_end_last(s.drop_last());
    }
}

proof fn lemma_trim_end_prefix(s: Seq<char>)
    ensures
        trim_end(s).len() <= s.len(),
        forall|j: int| 0 <= j < trim_end(s).len() ==> trim_end(s)[j] == s[j],
    decreases s.len(),
{
    if s.len() == 0 {
    } else if is_space(s.last()) {
        lemma_trim_end_prefix(s.drop_last());
        assert forall|j: int| 0 <= j < trim_end(s).len() implies trim_end(s)[j] == s[j] by {
            assert(trim_end(s)[j] == s.drop_last()[j]);
        }
    }
}

/// A non-empty trimmed sequence neither starts nor ends with whitespace.
proof fn lemma_trim_ends(s: Seq<char>)
    ensures
        trim(s).len() > 0 ==> !is_space(trim(s)[0]) && !is_space(trim(s).last()),
{
    lemma_trim_start_head(s);
    lemma_trim_end_last(trim_start(s));
    lemma_trim_end_prefix(trim_start(s));
}

/// A sequence whose two ends are not whitespace is already trimmed.
proof fn lemma_trim_of_clean(s: Seq<char>)
    requires
        s.len() > 0,
        !is_space(s[0]),
        !is_space(s.last()),
    ensures
        trim(s) == s,
{
    assert(trim_start(s) == s);
    assert(trim_end(s) == s);
}

/// A source line that writes `key`, one `=`, then `value`.
pub open spec fn key_value_line(key: Seq<char>, value: Seq<char>) -> Seq<char> {
    key + seq!['='] + value
}

/// Rebuilding the line of an emitted key/value pair parses back to the same
/// pair: for a trimmed key without `=` that opens no comment, and a trimmed
/// value, the line `key` + `=` + `value` yields exactly `KeyValue(key, value)`
/// (unless the rebuilt line happens to read as a section header).
pub proof fn lemma_key_value_round_trip(key: Seq<char>, value: Seq<char>)
    requires
        trim(key) == key,
        trim(value) == value,
        !key.contains('='),
        key.len() > 0 ==> key[0] != '#',
        !(key_value_line(key, value)[0] == '[' && key_value_line(key, value).last() == ']'),
    ensures
        line_item(key_value_line(key, value)) == Some(ItemModel::KeyValue(key, value)),
{
    let line = key_value_line(key, value);
    assert(line.len() == key.len() + 1 + value.len());
    assert(line[key.len() as int] == '=');
    lemma_trim_ends(key);
    lemma_trim_ends(value);
    assert(!is_space(line[0]));
    assert(!is_space(line.last()));
    lemma_trim_of_clean(line);
    assert forall|j: int| 0 <= j < key.len() implies line[j] != '=' by {
        assert(line[j] == key[j]);
        if key[j] == '=' {
            assert(key.contains('='));
        }
    }
    lemma_find_char_at(line, '=', key.len() as int);
    assert(line.subrange(0, key.len() as int) =~= key);
    assert(line.subrange(key.len() as int + 1, line.len() as int) =~= value);
    assert(line[0] != '#');
}

/// A fresh tokenizer over `file`: every item of `file` is still to come, in
/// source order.
pub fn parse<'l>(file: &'l str) -> (parser: IniParser<'l>)
    ensures
        parser.wf(),
        parser.src() == file@,
        parser.remaining() == items_of(file@),
{
    IniParser::new(file)
}

} // verus!
