//! Text layout: the named-color registry, the `#[name]` markup
//! decomposition shared by the renderer and the length utility, and the
//! aligned text-drawing methods of [`Console`].

use vstd::prelude::*;
use crate::color::Color;
use crate::console::{Cells, Console, TextAlign};

verus! {

/// Turn a string slice into its sequence of characters.
pub fn str_chars(s: &str) -> (r: Vec<char>)
    ensures
        r@ == s@,
{
    let n = s.unicode_len();
    let mut r: Vec<char> = Vec::new();
    let mut i: usize = 0;
    while i < n
        invariant
            n == s@.len(),
            i <= n,
            r@ == s@.take(i as int),
        decreases n - i,
    {
        r.push(s.get_char(i));
        proof {
            assert(r@ =~= s@.take(i + 1));
        }
        i += 1;
    }
    proof {
        assert(r@ =~= s@);
    }
    r
}

fn chars_eq(a: &Vec<char>, b: &[char]) -> (r: bool)
    ensures
        r == (a@ == b@),
{
    if a.len() != b.len() {
        proof {
            assert(a@.len() != b@.len());
        }
        return false;
    }
    let n = a.len();
    let mut i: usize = 0;
    while i < n
        invariant
            n == a.len() == b.len(),
            i <= n,
            forall|j: int| 0 <= j < i ==> a@[j] == b@[j],
        decreases n - i,
    {
        if a[i] != b[i] {
            return false;
        }
        i += 1;
    }
    proof {
        assert(a@ =~= b@);
    }
    true
}

/// The color a registry's entry list associates with `name`: the first
/// entry whose key matches, if any.
pub open spec fn palette_lookup(
    entries: Seq<(Vec<char>, Color)>,
    name: Seq<char>,
) -> Option<Color>
    decreases entries.len(),
{
    if entries.len() == 0 {
        None
    } else if entries.first().0@ == name {
        Some(entries.first().1)
    } else {
        palette_lookup(entries.drop_first(), name)
    }
}

/// The named-color registry as a map from names to colors.
pub open spec fn palette_of(entries: Seq<(Vec<char>, Color)>) -> Map<Seq<char>, Color> {
    Map::new(
        |name: Seq<char>| palette_lookup(entries, name) is Some,
        |name: Seq<char>| palette_lookup(entries, name)->Some_0,
    )
}

proof fn lemma_lookup_extend(entries: Seq<(Vec<char>, Color)>, i: int, name: Seq<char>)
    requires
        0 <= i <= entries.len(),
        forall|j: int| 0 <= j < i ==> entries[j].0@ != name,
    ensures
        palette_lookup(entries, name) == palette_lookup(entries.skip(i), name),
    decreases i,
{
    if i > 0 {
        assert(entries.first().0@ != name);
        lemma_lookup_extend(entries.drop_first(), i - 1, name);
        assert(entries.drop_first().skip(i - 1) =~= entries.skip(i));
    } else {
        assert(entries.skip(0) =~= entries);
    }
}

proof fn lemma_lookup_update(
    entries: Seq<(Vec<char>, Color)>,
    i: int,
    key: Vec<char>,
    value: Color,
    name: Seq<char>,
)
    requires
        0 <= i < entries.len(),
        forall|j: int| 0 <= j < i ==> entries[j].0@ != key@,
        entries[i].0@ == key@,
    ensures
        palette_lookup(entries.update(i, (key, value)), name) == if name == key@ {
            Some(value)
        } else {
            palette_lookup(entries, name)
        },
    decreases i,
{
    let updated = entries.update(i, (key, value));
    if i == 0 {
        if name == key@ {
        } else {
            assert(updated.drop_first() =~= entries.drop_first());
        }
    } else {
        lemma_lookup_update(entries.drop_first(), i - 1, key, value, name);
        assert(updated.drop_first() =~= entries.drop_first().update(i - 1, (key, value)));
    }
}

proof fn lemma_lookup_push(
    entries: Seq<(Vec<char>, Color)>,
    key: Vec<char>,
    value: Color,
    name: Seq<char>,
)
    requires
        forall|j: int| 0 <= j < entries.len() ==> entries[j].0@ != key@,
    ensures
        palette_lookup(entries.push((key, value)), name) == if name == key@ {
            Some(value)
        } else {
            palette_lookup(entries, name)
        },
    decreases entries.len(),
{
    let pushed = entries.push((key, value));
    if entries.len() == 0 {
        assert(pushed.first() == (key, value));
        if name != key@ {
            assert(pushed.drop_first() =~= Seq::<(Vec<char>, Color)>::empty());
            reveal_with_fuel(palette_lookup, 2);
        }
    } else {
        assert(pushed.first() == entries.first());
        lemma_lookup_push(entries.drop_first(), key, value, name);
        assert(pushed.drop_first() =~= entries.drop_first().push((key, value)));
    }
}

proof fn lemma_palette_insert(
    s1: Seq<(Vec<char>, Color)>,
    s0: Seq<(Vec<char>, Color)>,
    key: Seq<char>,
    value: Color,
)
    requires
        forall|n: Seq<char>|
            palette_lookup(s1, n) == if n == key {
                Some(value)
            } else {
                palette_lookup(s0, n)
            },
    ensures
        palette_of(s1) =~= palette_of(s0).insert(key, value),
{
    let m1 = palette_of(s1);
    let m2 = palette_of(s0).insert(key, value);
    assert forall|n: Seq<char>| m1.dom().contains(n) == m2.dom().contains(n) by {
        assert(palette_lookup(s1, n) == if n == key {
            Some(value)
        } else {
            palette_lookup(s0, n)
        });
    }
    assert(m1.dom() =~= m2.dom());
    assert forall|n: Seq<char>| m1.dom().contains(n) implies m1[n] == m2[n] by {
        assert(palette_lookup(s1, n) == if n == key {
            Some(value)
        } else {
            palette_lookup(s0, n)
        });
    }
}

/// Associate `key` with `value` in the registry's entry list: the first
/// entry with that key is replaced, or a new entry is appended.
pub(crate) fn registry_insert(entries: &mut Vec<(Vec<char>, Color)>, key: Vec<char>, value: Color)
    ensures
        palette_of(final(entries)@) =~= palette_of(old(entries)@).insert(key@, value),
{
    let ghost gkey = key@;
    let n = entries.len();
    let mut i: usize = 0;
    while i < n
        invariant
            n == entries.len(),
            i <= n,
            entries@ == old(entries)@,
            forall|j: int| 0 <= j < i ==> entries@[j].0@ != gkey,
            gkey == key@,
        decreases n - i,
    {
        if chars_eq(&entries[i].0, key.as_slice()) {
            let ghost orig = entries@;
            proof {
                assert forall|name: Seq<char>|
                    palette_lookup(orig.update(i as int, (key, value)), name) == (if name == gkey {
                        Some(value)
                    } else {
                        palette_lookup(orig, name)
                    }) by {
                    lemma_lookup_update(orig, i as int, key, value, name);
                }
            }
            entries.set(i, (key, value));
            proof {
                lemma_palette_insert(entries@, orig, gkey, value);
            }
            return ;
        }
        i += 1;
    }
    let ghost orig = entries@;
    proof {
        assert forall|name: Seq<char>|
            palette_lookup(orig.push((key, value)), name) == (if name == gkey {
                Some(value)
            } else {
                palette_lookup(orig, name)
            }) by {
            lemma_lookup_push(orig, key, value, name);
        }
    }
    entries.push((key, value));
    proof {
        lemma_palette_insert(entries@, orig, gkey, value);
    }
}

/// Look a name up in the registry's entry list.
pub(crate) fn registry_get(entries: &Vec<(Vec<char>, Color)>, name: &[char]) -> (r: Option<Color>)
    ensures
        r == palette_lookup(entries@, name@),
{
    let n = entries.len();
    let mut i: usize = 0;
    while i < n
        invariant
            n == entries.len(),
            i <= n,
            forall|j: int| 0 <= j < i ==> entries@[j].0@ != name@,
        decreases n - i,
    {
        if chars_eq(&entries[i].0, name) {
            proof {
                lemma_lookup_extend(entries@, i as int, name@);
                assert(entries@.skip(i as int).first() == entries@[i as int]);
            }
            return Some(entries[i].1);
        }
        i += 1;
    }
    proof {
        lemma_lookup_extend(entries@, n as int, name@);
        assert(entries@.skip(n as int) =~= Seq::<(Vec<char>, Color)>::empty());
    }
    None
}

impl Console {
    /// The console's named-color registry as a map.
    pub open spec fn palette(self) -> Map<Seq<char>, Color> {
        palette_of(self.colors@)
    }
}

/// The glyph code stored for a printed character: its code point truncated
/// to 16 bits.
pub open spec fn glyph_of_char(c: char) -> u32 {
    (c as u32) % 0x10000
}

fn char_glyph(c: char) -> (r: u16)
    ensures
        r as u32 == glyph_of_char(c),
{
    ((c as u32) % 0x10000) as u16
}

/// Position of the first occurrence of `c` in `s`.
pub open spec fn find_char(s: Seq<char>, c: char) -> Option<int>
    decreases s.len(),
{
    if s.len() == 0 {
        None
    } else if s[0] == c {
        Some(0)
    } else {
        match find_char(s.drop_first(), c) {
            None => None,
            Some(i) => Some(i + 1),
        }
    }
}

pub proof fn lemma_find_char(s: Seq<char>, c: char)
    ensures
        match find_char(s, c) {
            None => forall|j: int| 0 <= j < s.len() ==> s[j] != c,
            Some(i) => 0 <= i < s.len() && s[i] == c && forall|j: int| 0 <= j < i ==> s[j] != c,
        },
    decreases s.len(),
{
    if s.len() > 0 && s[0] != c {
        let t = s.drop_first();
        lemma_find_char(t, c);
        match find_char(t, c) {
            None => {
                assert forall|j: int| 0 <= j < s.len() implies s[j] != c by {
                    if j >= 1 {
                        assert(t[j - 1] == s[j]);
                        assert(t[j - 1] != c);
                    }
                }
            },
            Some(i) => {
                assert(t[i] == s[i + 1]);
                assert forall|j: int| 0 <= j < i + 1 implies s[j] != c by {
                    if j >= 1 {
                        assert(t[j - 1] == s[j]);
                        assert(t[j - 1] != c);
                    }
                }
            },
        }
    }
}

/// `find_char` returns the position its characterization demands.
pub proof fn lemma_find_char_some(s: Seq<char>, c: char, i: int)
    requires
        0 <= i < s.len(),
        s[i] == c,
        forall|j: int| 0 <= j < i ==> s[j] != c,
    ensures
        find_char(s, c) == Some(i),
    decreases i,
{
    if i > 0 {
        lemma_find_char_some(s.drop_first(), c, i - 1);
    }
}

pub proof fn lemma_find_char_none(s: Seq<char>, c: char)
    requires
        forall|j: int| 0 <= j < s.len() ==> s[j] != c,
    ensures
        find_char(s, c) is None,
    decreases s.len(),
{
    if s.len() > 0 {
        lemma_find_char_none(s.drop_first(), c);
    }
}

/// A color tag opens at position `i` of `s`.
pub open spec fn tag_at(s: Seq<char>, i: int) -> bool {
    0 <= i && i + 1 < s.len() && s[i] == '#' && s[i + 1] == '['
}

/// Position of the first `#[` tag opener in `s`.
pub open spec fn find_tag(s: Seq<char>) -> Option<int>
    decreases s.len(),
{
    if s.len() < 2 {
        None
    } else if s[0] == '#' && s[1] == '[' {
        Some(0)
    } else {
        match find_tag(s.drop_first()) {
            None => None,
            Some(i) => Some(i + 1),
        }
    }
}

pub proof fn lemma_find_tag(s: Seq<char>)
    ensures
        match find_tag(s) {
            None => forall|j: int| !tag_at(s, j),
            Some(i) => tag_at(s, i) && forall|j: int| 0 <= j < i ==> !tag_at(s, j),
        },
    decreases s.len(),
{
    if s.len() >= 2 && !(s[0] == '#' && s[1] == '[') {
        lemma_find_tag(s.drop_first());
        let t = s.drop_first();
        match find_tag(t) {
            None => {
                assert forall|j: int| !tag_at(s, j) by {
                    if 1 <= j && j + 1 < s.len() {
                        assert(!tag_at(t, j - 1));
                        assert(t[j - 1] == s[j] && t[j] == s[j + 1]);
                    }
                }
            },
            Some(i) => {
                assert(t[i] == s[i + 1] && t[i + 1] == s[i + 2]);
                assert forall|j: int| 0 <= j < i + 1 implies !tag_at(s, j) by {
                    if 1 <= j {
                        assert(!tag_at(t, j - 1));
                        if j + 1 < s.len() {
                            assert(t[j - 1] == s[j] && t[j] == s[j + 1]);
                        }
                    }
                }
            },
        }
    }
}

pub proof fn lemma_find_tag_some(s: Seq<char>, i: int)
    requires
        tag_at(s, i),
        forall|j: int| 0 <= j < i ==> !tag_at(s, j),
    ensures
        find_tag(s) == Some(i),
    decreases i,
{
    if i > 0 {
        let t = s.drop_first();
        assert(t[i - 1] == s[i] && t[i] == s[i + 1]);
        assert forall|j: int| 0 <= j < i - 1 implies !tag_at(t, j) by {
            assert(!tag_at(s, j + 1));
            assert(t[j] == s[j + 1] && t[j + 1] == s[j + 2]);
        }
        assert(tag_at(t, i - 1));
        assert(!tag_at(s, 0));
        lemma_find_tag_some(t, i - 1);
        assert(find_tag(t) == Some(i - 1));
    } else {
        assert(s[0] == '#' && s[1] == '[');
    }
}

pub proof fn lemma_find_tag_none(s: Seq<char>)
    requires
        forall|j: int| !tag_at(s, j),
    ensures
        find_tag(s) is None,
    decreases s.len(),
{
    if s.len() >= 2 {
        assert(!tag_at(s, 0));
        let t = s.drop_first();
        assert forall|j: int| !tag_at(t, j) by {
            if 0 <= j && j + 1 < t.len() {
                assert(!tag_at(s, j + 1));
                assert(t[j] == s[j + 1] && t[j + 1] == s[j + 2]);
            }
        }
        lemma_find_tag_none(t);
    }
}

/// The text split at every newline; a trailing newline yields a final empty
/// line, and a text without newlines is a single line.
pub open spec fn split_lines(s: Seq<char>) -> Seq<Seq<char>>
    decreases s.len(),
{
    match find_char(s, '\n') {
        None => seq![s],
        Some(i) => if 0 <= i < s.len() {
            seq![s.take(i)] + split_lines(s.skip(i + 1))
        } else {
            seq![s]
        },
    }
}

/// The text split at every `#[` tag opener.
pub open spec fn split_tag(s: Seq<char>) -> Seq<Seq<char>>
    decreases s.len(),
{
    match find_tag(s) {
        None => seq![s],
        Some(i) => if 0 <= i && i + 2 <= s.len() {
            seq![s.take(i)] + split_tag(s.skip(i + 2))
        } else {
            seq![s]
        },
    }
}

/// The rendering color on top of the parse stack: default white when the
/// stack is empty.
pub open spec fn stack_top(stack: Seq<Color>) -> Color {
    if stack.len() == 0 {
        crate::console::DEFAULT_FORE
    } else {
        stack.last()
    }
}

/// Process one segment (the text between two `#[` openers): a leading
/// `name]` selects the color of the following span. A registered name is
/// pushed on the stack; any other name, the empty one included, pops it.
/// A segment without `]` is plain text in the current color, and an empty
/// segment yields nothing.
pub open spec fn segment_step(
    reg: Map<Seq<char>, Color>,
    stack: Seq<Color>,
    seg: Seq<char>,
) -> (Seq<Color>, Option<(Color, Seq<char>)>) {
    if seg.len() == 0 {
        (stack, None)
    } else {
        match find_char(seg, ']') {
            None => (stack, Some((stack_top(stack), seg))),
            Some(j) => {
                let name = seg.take(j);
                let content = seg.skip(j + 1);
                if reg.contains_key(name) {
                    let c = reg[name];
                    (stack.push(c), Some((c, content)))
                } else {
                    let popped = if stack.len() == 0 {
                        stack
                    } else {
                        stack.drop_last()
                    };
                    (popped, Some((stack_top(popped), content)))
                }
            },
        }
    }
}

/// Fold `segment_step` over a list of segments, emitting the (color, text)
/// spans and threading the parse stack.
pub open spec fn spans_rec(
    reg: Map<Seq<char>, Color>,
    stack: Seq<Color>,
    segs: Seq<Seq<char>>,
) -> (Seq<(Color, Seq<char>)>, Seq<Color>)
    decreases segs.len(),
{
    if segs.len() == 0 {
        (Seq::empty(), stack)
    } else {
        let step = segment_step(reg, stack, segs.first());
        let rest = spans_rec(reg, step.0, segs.drop_first());
        (
            match step.1 {
                Some(p) => seq![p] + rest.0,
                None => rest.0,
            },
            rest.1,
        )
    }
}

/// The (color, text) spans of one line of markup text, with the parse stack
/// it leaves behind. This one decomposition backs both the renderer and the
/// length utility.
pub open spec fn color_spans(
    reg: Map<Seq<char>, Color>,
    stack: Seq<Color>,
    line: Seq<char>,
) -> (Seq<(Color, Seq<char>)>, Seq<Color>) {
    spans_rec(reg, stack, split_tag(line))
}

/// Total character count of a list of spans.
pub open spec fn spans_len(spans: Seq<(Color, Seq<char>)>) -> int
    decreases spans.len(),
{
    if spans.len() == 0 {
        0
    } else {
        spans.first().1.len() + spans_len(spans.drop_first())
    }
}

/// The number of characters a piece of markup text renders as, with the tag
/// syntax subtracted.
pub open spec fn visible_len(s: Seq<char>) -> int {
    spans_len(color_spans(Map::empty(), Seq::empty(), s).0)
}

/// The characters one segment contributes to the rendered text.
pub open spec fn seg_contrib(seg: Seq<char>) -> int {
    if seg.len() == 0 {
        0
    } else {
        match find_char(seg, ']') {
            None => seg.len() as int,
            Some(j) => seg.len() - j - 1,
        }
    }
}

/// The visible length never depends on the registry or on the parse stack:
/// the markup decomposition hands the renderer and the length utility the
/// same span boundaries.
pub proof fn lemma_spans_len_any(
    reg1: Map<Seq<char>, Color>,
    stack1: Seq<Color>,
    reg2: Map<Seq<char>, Color>,
    stack2: Seq<Color>,
    segs: Seq<Seq<char>>,
)
    ensures
        spans_len(spans_rec(reg1, stack1, segs).0) == spans_len(spans_rec(reg2, stack2, segs).0),
    decreases segs.len(),
{
    if segs.len() > 0 {
        let step1 = segment_step(reg1, stack1, segs.first());
        let step2 = segment_step(reg2, stack2, segs.first());
        lemma_spans_len_any(reg1, step1.0, reg2, step2.0, segs.drop_first());
        let rest1 = spans_rec(reg1, step1.0, segs.drop_first());
        let rest2 = spans_rec(reg2, step2.0, segs.drop_first());
        match step1.1 {
            Some(p1) => {
                let p2 = step2.1->Some_0;
                assert(p1.1 == p2.1);
                assert((seq![p1] + rest1.0).drop_first() =~= rest1.0);
                assert((seq![p2] + rest2.0).drop_first() =~= rest2.0);
            },
            None => {},
        }
    }
}

/// What `text_color_len` counts for one line equals what `print_color`'s
/// span decomposition renders, whatever the registry and the stack hold.
pub proof fn lemma_text_len_matches_render(
    reg: Map<Seq<char>, Color>,
    stack: Seq<Color>,
    line: Seq<char>,
)
    ensures
        spans_len(color_spans(reg, stack, line).0) == visible_len(line),
{
    lemma_spans_len_any(reg, stack, Map::empty(), Seq::empty(), split_tag(line));
}

/// One unfolding of `visible_len` along the first tag opener.
pub proof fn lemma_vis_step(s: Seq<char>)
    ensures
        match find_tag(s) {
            None => visible_len(s) == seg_contrib(s),
            Some(i) => visible_len(s) == seg_contrib(s.take(i)) + visible_len(s.skip(i + 2)),
        },
{
    lemma_find_tag(s);
    let reg0 = Map::<Seq<char>, Color>::empty();
    let st0 = Seq::<Color>::empty();
    match find_tag(s) {
        None => {
            let segs = seq![s];
            assert(split_tag(s) == segs);
            assert(segs.first() == s);
            assert(segs.drop_first() =~= Seq::<Seq<char>>::empty());
            let step = segment_step(reg0, st0, s);
            let rest = spans_rec(reg0, step.0, segs.drop_first());
            assert(rest.0 == Seq::<(Color, Seq<char>)>::empty());
            lemma_find_char(s, ']');
            match step.1 {
                Some(p) => {
                    let spans = seq![p] + rest.0;
                    assert(spans_rec(reg0, st0, segs).0 == spans);
                    assert(spans.first() == p);
                    assert(spans.drop_first() =~= Seq::<(Color, Seq<char>)>::empty());
                    assert(spans_len(spans.drop_first()) == 0);
                    assert(spans_len(spans) == p.1.len());
                    assert(p.1.len() == seg_contrib(s));
                },
                None => {
                    assert(spans_rec(reg0, st0, segs).0 == rest.0);
                    assert(spans_len(rest.0) == 0);
                },
            }
        },
        Some(i) => {
            let seg = s.take(i);
            let rest_s = s.skip(i + 2);
            let segs = seq![seg] + split_tag(rest_s);
            assert(split_tag(s) == segs);
            assert(segs.first() == seg);
            assert(segs.drop_first() =~= split_tag(rest_s));
            let step = segment_step(reg0, st0, seg);
            let tail = spans_rec(reg0, step.0, split_tag(rest_s));
            lemma_spans_len_any(reg0, step.0, reg0, st0, split_tag(rest_s));
            assert(spans_len(tail.0) == visible_len(rest_s));
            lemma_find_char(seg, ']');
            match step.1 {
                Some(p) => {
                    let spans = seq![p] + tail.0;
                    assert(spans_rec(reg0, st0, segs).0 == spans);
                    assert(spans.first() == p);
                    assert(spans.drop_first() =~= tail.0);
                    assert(spans_len(spans) == p.1.len() + spans_len(tail.0));
                    assert(p.1.len() == seg_contrib(seg));
                },
                None => {
                    assert(spans_rec(reg0, st0, segs).0 == tail.0);
                    assert(seg_contrib(seg) == 0);
                },
            }
        },
    }
}

/// Visible length is between zero and the raw character count.
pub proof fn lemma_visible_len_bound(s: Seq<char>)
    ensures
        0 <= visible_len(s) <= s.len(),
    decreases s.len(),
{
    lemma_vis_step(s);
    lemma_find_tag(s);
    match find_tag(s) {
        None => {
            lemma_find_char(s, ']');
        },
        Some(i) => {
            lemma_find_char(s.take(i), ']');
            lemma_visible_len_bound(s.skip(i + 2));
        },
    }
}

/// Position of the first tag opener at or after `from`, if any.
fn find_tag_from(cs: &Vec<char>, from: usize) -> (r: Option<usize>)
    requires
        from <= cs.len(),
    ensures
        match r {
            None => find_tag(cs@.skip(from as int)) is None,
            Some(p) => from <= p && p + 1 < cs.len() && find_tag(cs@.skip(from as int)) == Some(
                p - from,
            ),
        },
{
    let n = cs.len();
    if n == 0 {
        proof {
            lemma_find_tag_none(cs@.skip(from as int));
        }
        return None;
    }
    let mut j = from;
    let ghost t = cs@.skip(from as int);
    while j < n - 1
        invariant
            from <= j,
            j <= n == cs.len(),
            n >= 1,
            t == cs@.skip(from as int),
            forall|k: int| 0 <= k < j - from ==> !tag_at(t, k),
        decreases n - j,
    {
        if cs[j] == '#' && cs[j + 1] == '[' {
            proof {
                assert(t[j - from] == cs@[j as int] && t[j - from + 1] == cs@[j + 1]);
                lemma_find_tag_some(t, j - from);
            }
            return Some(j);
        }
        proof {
            assert(t[j - from] == cs@[j as int]);
            if j + 1 < n {
                assert(t[j - from + 1] == cs@[j + 1]);
            }
        }
        j += 1;
    }
    proof {
        assert forall|k: int| !tag_at(t, k) by {
            if 0 <= k && k + 1 < t.len() {
                assert(k < j - from || k >= j - from);
            }
        }
        lemma_find_tag_none(t);
    }
    None
}

/// Position of the first `c` in `cs[from..to]`, if any.
fn find_char_in(cs: &Vec<char>, from: usize, to: usize, c: char) -> (r: Option<usize>)
    requires
        from <= to <= cs.len(),
    ensures
        match r {
            None => find_char(cs@.subrange(from as int, to as int), c) is None,
            Some(p) => from <= p < to && find_char(cs@.subrange(from as int, to as int), c)
                == Some(p - from),
        },
{
    let ghost t = cs@.subrange(from as int, to as int);
    let mut j = from;
    while j < to
        invariant
            from <= j <= to <= cs.len(),
            t == cs@.subrange(from as int, to as int),
            forall|k: int| 0 <= k < j - from ==> t[k] != c,
        decreases to - j,
    {
        if cs[j] == c {
            proof {
                assert(t[j - from] == cs@[j as int]);
                lemma_find_char_some(t, c, j - from);
            }
            return Some(j);
        }
        proof {
            assert(t[j - from] == cs@[j as int]);
        }
        j += 1;
    }
    proof {
        lemma_find_char_none(t, c);
    }
    None
}

impl Console {
/// compute the length of a string containing color codes: the number of
/// characters it would render as, with the `#[name]` tag syntax subtracted.
pub fn text_color_len(text: &str) -> (r: usize)
    ensures
        r == visible_len(text@),
{
    let cs = str_chars(text);
    let n = cs.len();
    let mut total: usize = 0;
    let mut pos: usize = 0;
    let mut more = true;
    proof {
        assert(cs@.skip(0) =~= cs@);
        lemma_visible_len_bound(cs@);
    }
    while more
        invariant
            pos <= n == cs.len(),
            cs@ == text@,
            total + (if more {
                visible_len(cs@.skip(pos as int))
            } else {
                0
            }) == visible_len(cs@),
            0 <= visible_len(cs@) <= n,
            !more ==> pos == n,
        decreases n - pos + (if more { 1int } else { 0 }),
    {
        let ghost rem = cs@.skip(pos as int);
        proof {
            lemma_vis_step(rem);
            lemma_find_tag(rem);
            lemma_visible_len_bound(rem);
        }
        let seg_end: usize;
        match find_tag_from(&cs, pos) {
            Some(p) => {
                seg_end = p;
            },
            None => {
                seg_end = n;
                more = false;
            },
        }
        let ghost seg = if more {
            rem.take(seg_end - pos)
        } else {
            rem
        };
        proof {
            if more {
                assert(seg =~= cs@.subrange(pos as int, seg_end as int));
                lemma_visible_len_bound(rem.skip(seg_end - pos + 2));
            } else {
                assert(seg =~= cs@.subrange(pos as int, seg_end as int));
            }
            lemma_find_char(seg, ']');
        }
        if seg_end > pos {
            match find_char_in(&cs, pos, seg_end, ']') {
                Some(j) => {
                    total += seg_end - j - 1;
                },
                None => {
                    total += seg_end - pos;
                },
            }
        }
        if more {
            proof {
                assert(rem.skip(seg_end - pos + 2) =~= cs@.skip(seg_end + 2));
            }
            pos = seg_end + 2;
        } else {
            pos = n;
        }
    }
    total
}
}

/// Leftmost console column of a line of `n` characters anchored at `x`.
pub open spec fn align_start(x: int, n: int, align: TextAlign) -> int {
    match align {
        TextAlign::Left => x,
        TextAlign::Right => x - n + 1,
        TextAlign::Center => x - n / 2,
    }
}

/// Cell `i` receives a character of a line of `n` characters starting at
/// column `ix0` of row `y`, after clipping to the logical grid.
pub open spec fn line_covers(con: Console, i: int, ix0: int, n: int, y: int) -> bool {
    let pw = con.pot_width as int;
    let cx = i % pw;
    i / pw == y && 0 <= y < con.height && ix0 <= cx < ix0 + n && cx < con.width
}

/// The grid `c` after one line of text is written: each covered cell gets
/// the character's glyph, plus the optional foreground and background
/// colors; clipped characters are simply not written.
pub open spec fn line_op(
    con: Console,
    c: Cells,
    x: int,
    y: int,
    line: Seq<char>,
    align: TextAlign,
    fore: Option<Color>,
    back: Option<Color>,
) -> Cells {
    let n = line.len() as int;
    let ix0 = align_start(x, n, align);
    let pw = con.pot_width as int;
    Cells {
        ascii: Seq::new(
            c.ascii.len(),
            |i: int|
                if line_covers(con, i, ix0, n, y) {
                    glyph_of_char(line[i % pw - ix0])
                } else {
                    c.ascii[i]
                },
        ),
        fore: Seq::new(
            c.fore.len(),
            |i: int| crate::console::masked_color(c.fore[i], fore, line_covers(con, i, ix0, n, y)),
        ),
        back: Seq::new(
            c.back.len(),
            |i: int| crate::console::masked_color(c.back[i], back, line_covers(con, i, ix0, n, y)),
        ),
    }
}

/// Dimensions alone decide what `line_op` does.
pub proof fn lemma_line_op_dims(
    con1: Console,
    con2: Console,
    c: Cells,
    x: int,
    y: int,
    line: Seq<char>,
    align: TextAlign,
    fore: Option<Color>,
    back: Option<Color>,
)
    requires
        con1.same_dims(con2),
    ensures
        line_op(con1, c, x, y, line, align, fore, back) == line_op(
            con2,
            c,
            x,
            y,
            line,
            align,
            fore,
            back,
        ),
{
    let r1 = line_op(con1, c, x, y, line, align, fore, back);
    let r2 = line_op(con2, c, x, y, line, align, fore, back);
    assert(r1.ascii =~= r2.ascii);
    assert(r1.fore =~= r2.fore);
    assert(r1.back =~= r2.back);
}

/// The grid after a multi-line plain print: each line rendered one row
/// below the previous one.
pub open spec fn print_op(
    con: Console,
    c: Cells,
    x: int,
    y: int,
    lines: Seq<Seq<char>>,
    align: TextAlign,
    fore: Option<Color>,
    back: Option<Color>,
) -> Cells
    decreases lines.len(),
{
    if lines.len() == 0 {
        c
    } else {
        print_op(
            con,
            line_op(con, c, x, y, lines.first(), align, fore, back),
            x,
            y + 1,
            lines.drop_first(),
            align,
            fore,
            back,
        )
    }
}

impl Console {
    /// Write the characters `cs[a..b]` as one line anchored at `(x, y)`.
    fn print_line(
        &mut self,
        x: i64,
        y: i64,
        cs: &Vec<char>,
        a: usize,
        b: usize,
        align: TextAlign,
        fore: Option<Color>,
        back: Option<Color>,
    )
        requires
            old(self).wf(),
            a <= b <= cs.len(),
            b - a <= 0x7fff_ffff,
            -0x7fff_0000_0000 <= x <= 0x7fff_0000_0000,
            -0x7fff_0000_0000 <= y <= 0x7fff_0000_0000,
        ensures
            final(self).cells() == line_op(
                *old(self),
                old(self).cells(),
                x as int,
                y as int,
                cs@.subrange(a as int, b as int),
                align,
                fore,
                back,
            ),
            old(self).same_dims(*final(self)),
            old(self).same_palette(*final(self)),
            final(self).wf(),
    {
        proof {
            self.lemma_dims_bounds();
        }
        let ghost line = cs@.subrange(a as int, b as int);
        let n: i64 = (b - a) as i64;
        let ix0: i64 = match align {
            TextAlign::Left => x,
            TextAlign::Right => x - n + 1,
            TextAlign::Center => x - ((n as u64 / 2) as i64),
        };
        let ghost gix0 = align_start(x as int, n as int, align);
        proof {
            assert(gix0 == ix0);
        }
        if y < 0 || y >= self.height as i64 {
            proof {
                let r = line_op(*old(self), old(self).cells(), x as int, y as int, line, align,
                    fore, back);
                assert(r.ascii =~= self.ascii@);
                assert(r.fore =~= self.fore@);
                assert(r.back =~= self.back@);
            }
            return ;
        }
        let s0: i64 = if ix0 > 0 { ix0 } else { 0 };
        let wi: i64 = self.width as i64;
        let xn: i64 = ix0 + n;
        let s1: i64 = if xn < wi { xn } else { wi };
        let mut cx: i64 = s0;
        while cx < s1
            invariant
                old(self).wf(),
                self.wf(),
                old(self).same_dims(*self),
                old(self).same_palette(*self),
                line == cs@.subrange(a as int, b as int),
                a <= b <= cs.len(),
                n == b - a,
                gix0 == ix0,
                0 <= y < old(self).height,
                s0 == vstd::math::max(ix0 as int, 0),
                s1 == vstd::math::min(ix0 + n, old(self).width as int),
                s0 <= cx,
                cx <= vstd::math::max(s0 as int, s1 as int),
                forall|i: int|
                    0 <= i < old(self).ascii@.len() ==> self.ascii@[i] == (if line_covers(
                        *old(self),
                        i,
                        gix0,
                        n as int,
                        y as int,
                    ) && i % (old(self).pot_width as int) < cx {
                        glyph_of_char(line[i % (old(self).pot_width as int) - gix0])
                    } else {
                        old(self).ascii@[i]
                    }),
                forall|i: int|
                    0 <= i < old(self).fore@.len() ==> self.fore@[i]
                        == crate::console::masked_color(
                        old(self).fore@[i],
                        fore,
                        line_covers(*old(self), i, gix0, n as int, y as int) && i % (
                        old(self).pot_width as int) < cx,
                    ),
                forall|i: int|
                    0 <= i < old(self).back@.len() ==> self.back@[i]
                        == crate::console::masked_color(
                        old(self).back@[i],
                        back,
                        line_covers(*old(self), i, gix0, n as int, y as int) && i % (
                        old(self).pot_width as int) < cx,
                    ),
            decreases s1 - cx,
        {
            let ghost prev = *self;
            proof {
                self.lemma_dims_bounds();
                self.lemma_idx(cx as int, y as int);
            }
            let k: usize = a + (cx - ix0) as usize;
            let ch = cs[k];
            let g = char_glyph(ch);
            let xi: i32 = cx as i32;
            let yi: i32 = y as i32;
            self.unsafe_ascii(xi, yi, g);
            if let Some(f) = fore {
                self.unsafe_fore(xi, yi, f);
            }
            if let Some(bc) = back {
                self.unsafe_back(xi, yi, bc);
            }
            proof {
                let pw = old(self).pot_width as int;
                let target = prev.idx(cx as int, y as int);
                assert(line[cx - gix0] == ch);
                assert forall|i: int| 0 <= i < old(self).ascii@.len() && i != target implies (
                    line_covers(*old(self), i, gix0, n as int, y as int) && i % pw < cx + 1) == (
                    line_covers(*old(self), i, gix0, n as int, y as int) && i % pw < cx) by {
                    vstd::arithmetic::div_mod::lemma_fundamental_div_mod(i, pw);
                    vstd::arithmetic::mul::lemma_mul_is_commutative(pw, i / pw);
                }
            }
            cx += 1;
        }
        proof {
            let pw = old(self).pot_width as int;
            let r = line_op(*old(self), old(self).cells(), x as int, y as int, line, align, fore,
                back);
            assert forall|i: int| 0 <= i < old(self).ascii@.len() implies (line_covers(
                *old(self),
                i,
                gix0,
                n as int,
                y as int,
            ) && i % pw < cx) == line_covers(*old(self), i, gix0, n as int, y as int) by {
                vstd::arithmetic::div_mod::lemma_mod_bound(i, pw);
            }
            assert(r.ascii =~= self.ascii@);
            assert(r.fore =~= self.fore@);
            assert(r.back =~= self.back@);
        }
    }

    /// write a string. If the string reaches the border of the console, it
    /// is truncated. If the string contains carriage return `"\n"`,
    /// multiple lines are printed.
    pub fn print(
        &mut self,
        x: i32,
        y: i32,
        text: &str,
        align: TextAlign,
        fore: Option<Color>,
        back: Option<Color>,
    )
        requires
            old(self).wf(),
            text@.len() <= 0x7fff_ffff,
        ensures
            final(self).cells() == print_op(
                *old(self),
                old(self).cells(),
                x as int,
                y as int,
                split_lines(text@),
                align,
                fore,
                back,
            ),
            old(self).same_dims(*final(self)),
            old(self).same_palette(*final(self)),
            final(self).wf(),
    {
        let cs = str_chars(text);
        let n = cs.len();
        let ghost orig = *old(self);
        let mut pos: usize = 0;
        let mut cury: i64 = y as i64;
        let mut more = true;
        proof {
            assert(cs@.skip(0) =~= cs@);
        }
        while more
            invariant
                orig == *old(self),
                orig.wf(),
                self.wf(),
                orig.same_dims(*self),
                orig.same_palette(*self),
                pos <= n == cs.len(),
                cs@ == text@,
                n <= 0x7fff_ffff,
                y <= cury <= y + pos + 1,
                more ==> print_op(orig, orig.cells(), x as int, y as int, split_lines(text@),
                    align, fore, back) == print_op(orig, self.cells(), x as int, cury as int,
                    split_lines(cs@.skip(pos as int)), align, fore, back),
                !more ==> print_op(orig, orig.cells(), x as int, y as int, split_lines(text@),
                    align, fore, back) == self.cells(),
            decreases n - pos + (if more { 1int } else { 0 }),
        {
            let ghost rem = cs@.skip(pos as int);
            let ghost lines = split_lines(rem);
            proof {
                lemma_find_char(rem, '\n');
            }
            let line_end: usize;
            match find_char_in(&cs, pos, n, '\n') {
                Some(p) => {
                    proof {
                        assert(cs@.subrange(pos as int, n as int) =~= rem);
                        assert(rem.take(p - pos) =~= cs@.subrange(pos as int, p as int));
                        assert(rem.skip(p - pos + 1) =~= cs@.skip(p + 1));
                        assert(lines == seq![rem.take(p - pos)] + split_lines(rem.skip(
                            p - pos + 1,
                        )));
                        assert(lines.first() == cs@.subrange(pos as int, p as int));
                        assert(lines.drop_first() =~= split_lines(cs@.skip(p + 1)));
                    }
                    let ghost before = self.cells();
                    let ghost precon = *self;
                    proof {
                        orig.lemma_dims_bounds();
                    }
                    self.print_line(x as i64, cury, &cs, pos, p, align, fore, back);
                    proof {
                        lemma_line_op_dims(precon, orig, before, x as int, cury as int,
                            cs@.subrange(pos as int, p as int), align, fore, back);
                        assert(print_op(orig, before, x as int, cury as int, lines, align, fore,
                            back) == print_op(orig, self.cells(), x as int, cury + 1,
                            lines.drop_first(), align, fore, back));
                    }
                    pos = p + 1;
                    cury = cury + 1;
                },
                None => {
                    proof {
                        assert(cs@.subrange(pos as int, n as int) =~= rem);
                        assert(lines == seq![rem]);
                        assert(lines.first() == cs@.subrange(pos as int, n as int));
                        assert(lines.drop_first() =~= Seq::<Seq<char>>::empty());
                    }
                    let ghost before = self.cells();
                    let ghost precon = *self;
                    self.print_line(x as i64, cury, &cs, pos, n, align, fore, back);
                    proof {
                        lemma_line_op_dims(precon, orig, before, x as int, cury as int,
                            cs@.subrange(pos as int, n as int), align, fore, back);
                        assert(print_op(orig, before, x as int, cury as int, lines, align, fore,
                            back) == print_op(orig, self.cells(), x as int, cury + 1,
                            lines.drop_first(), align, fore, back));
                        assert(print_op(orig, self.cells(), x as int, cury + 1,
                            Seq::<Seq<char>>::empty(), align, fore, back) == self.cells());
                    }
                    pos = n;
                    more = false;
                },
            }
        }
    }
}

/// Span list lengths are sums of non-negative parts.
pub proof fn lemma_spans_len_nonneg(spans: Seq<(Color, Seq<char>)>)
    ensures
        spans_len(spans) >= 0,
    decreases spans.len(),
{
    if spans.len() > 0 {
        lemma_spans_len_nonneg(spans.drop_first());
    }
}

/// `spans_len` splits over a cut of the span list.
pub proof fn lemma_spans_len_split(spans: Seq<(Color, Seq<char>)>, k: int)
    requires
        0 <= k <= spans.len(),
    ensures
        spans_len(spans) == spans_len(spans.take(k)) + spans_len(spans.skip(k)),
    decreases k,
{
    if k == 0 {
        assert(spans.take(0) =~= Seq::<(Color, Seq<char>)>::empty());
        assert(spans.skip(0) =~= spans);
    } else {
        lemma_spans_len_split(spans.drop_first(), k - 1);
        let t = spans.take(k);
        assert(t.first() == spans.first());
        assert(t.drop_first() =~= spans.drop_first().take(k - 1));
        assert(spans.skip(k) =~= spans.drop_first().skip(k - 1));
    }
}

/// One more span extends the prefix sum by that span's length.
pub proof fn lemma_spans_len_take_step(spans: Seq<(Color, Seq<char>)>, k: int)
    requires
        0 <= k < spans.len(),
    ensures
        spans_len(spans.take(k + 1)) == spans_len(spans.take(k)) + spans[k].1.len(),
    decreases k,
{
    if k == 0 {
        let t = spans.take(1);
        assert(t.first() == spans[0]);
        assert(t.drop_first() =~= Seq::<(Color, Seq<char>)>::empty());
        assert(spans.take(0) =~= Seq::<(Color, Seq<char>)>::empty());
    } else {
        lemma_spans_len_take_step(spans.drop_first(), k - 1);
        let t1 = spans.take(k + 1);
        let t0 = spans.take(k);
        assert(t1.first() == spans.first());
        assert(t0.first() == spans.first());
        assert(t1.drop_first() =~= spans.drop_first().take(k));
        assert(t0.drop_first() =~= spans.drop_first().take(k - 1));
        assert(spans.drop_first()[k - 1] == spans[k]);
    }
}

/// The grid after a list of spans is laid out left to right from column
/// `ix` of row `y`, each span in its own color.
pub open spec fn spans_fold(
    con: Console,
    c: Cells,
    ix: int,
    y: int,
    spans: Seq<(Color, Seq<char>)>,
    back: Option<Color>,
) -> Cells
    decreases spans.len(),
{
    if spans.len() == 0 {
        c
    } else {
        spans_fold(
            con,
            line_op(con, c, ix, y, spans.first().1, TextAlign::Left, Some(spans.first().0), back),
            ix + spans.first().1.len(),
            y,
            spans.drop_first(),
            back,
        )
    }
}

/// Dimensions alone decide what `spans_fold` does.
pub proof fn lemma_spans_fold_dims(
    con1: Console,
    con2: Console,
    c: Cells,
    ix: int,
    y: int,
    spans: Seq<(Color, Seq<char>)>,
    back: Option<Color>,
)
    requires
        con1.same_dims(con2),
    ensures
        spans_fold(con1, c, ix, y, spans, back) == spans_fold(con2, c, ix, y, spans, back),
    decreases spans.len(),
{
    if spans.len() > 0 {
        lemma_line_op_dims(con1, con2, c, ix, y, spans.first().1, TextAlign::Left,
            Some(spans.first().0), back);
        lemma_spans_fold_dims(
            con1,
            con2,
            line_op(con1, c, ix, y, spans.first().1, TextAlign::Left, Some(spans.first().0), back),
            ix + spans.first().1.len(),
            y,
            spans.drop_first(),
            back,
        );
    }
}

/// The grid and parse stack after one line of markup text: the line is
/// decomposed into spans, aligned by its total visible length, and the
/// spans are laid out in sequence.
pub open spec fn line_color_op(
    con: Console,
    reg: Map<Seq<char>, Color>,
    c: Cells,
    stack: Seq<Color>,
    x: int,
    y: int,
    line: Seq<char>,
    align: TextAlign,
    back: Option<Color>,
) -> (Cells, Seq<Color>) {
    let sp = color_spans(reg, stack, line);
    let n = spans_len(sp.0);
    (spans_fold(con, c, align_start(x, n, align), y, sp.0, back), sp.1)
}

/// The grid and parse stack after a multi-line markup print.
pub open spec fn print_color_op(
    con: Console,
    reg: Map<Seq<char>, Color>,
    c: Cells,
    stack: Seq<Color>,
    x: int,
    y: int,
    lines: Seq<Seq<char>>,
    align: TextAlign,
    back: Option<Color>,
) -> (Cells, Seq<Color>)
    decreases lines.len(),
{
    if lines.len() == 0 {
        (c, stack)
    } else {
        let one = line_color_op(con, reg, c, stack, x, y, lines.first(), align, back);
        print_color_op(con, reg, one.0, one.1, x, y + 1, lines.drop_first(), align, back)
    }
}

/// Position of the first tag opener in `cs[from..to]`, if any.
fn find_tag_in(cs: &Vec<char>, from: usize, to: usize) -> (r: Option<usize>)
    requires
        from <= to <= cs.len(),
    ensures
        match r {
            None => find_tag(cs@.subrange(from as int, to as int)) is None,
            Some(p) => from <= p && p + 1 < to && find_tag(cs@.subrange(from as int, to as int))
                == Some(p - from),
        },
{
    let ghost t = cs@.subrange(from as int, to as int);
    if to == from {
        proof {
            lemma_find_tag_none(t);
        }
        return None;
    }
    let mut j = from;
    while j < to - 1
        invariant
            from <= j,
            j <= to <= cs.len(),
            to >= 1,
            t == cs@.subrange(from as int, to as int),
            forall|k: int| 0 <= k < j - from ==> !tag_at(t, k),
        decreases to - j,
    {
        if cs[j] == '#' && cs[j + 1] == '[' {
            proof {
                assert(t[j - from] == cs@[j as int] && t[j - from + 1] == cs@[j + 1]);
                lemma_find_tag_some(t, j - from);
            }
            return Some(j);
        }
        proof {
            assert(t[j - from] == cs@[j as int]);
            assert(t[j - from + 1] == cs@[j + 1]);
        }
        j += 1;
    }
    proof {
        assert forall|k: int| !tag_at(t, k) by {
            if 0 <= k && k + 1 < t.len() {
                assert(!tag_at(t, k) || k < j - from || k >= j - from);
            }
        }
        lemma_find_tag_none(t);
    }
    None
}

/// Copy the characters `cs[a..b]` into a fresh vector.
fn copy_range(cs: &Vec<char>, a: usize, b: usize) -> (r: Vec<char>)
    requires
        a <= b <= cs.len(),
    ensures
        r@ == cs@.subrange(a as int, b as int),
{
    let mut r: Vec<char> = Vec::new();
    let mut i = a;
    while i < b
        invariant
            a <= i <= b <= cs.len(),
            r@ == cs@.subrange(a as int, i as int),
        decreases b - i,
    {
        r.push(cs[i]);
        proof {
            assert(r@ =~= cs@.subrange(a as int, i + 1));
        }
        i += 1;
    }
    r
}

impl Console {
    /// The color on top of the parse stack, or default white.
    fn stack_top_color(&self) -> (r: Color)
        ensures
            r == stack_top(self.color_stack@),
    {
        if self.color_stack.len() > 0 {
            self.color_stack[self.color_stack.len() - 1]
        } else {
            (255, 255, 255, 255)
        }
    }

    /// Decompose the markup line `cs[a..b]` into (color, text) spans,
    /// updating the parse stack, and count the characters they hold.
    fn get_color_spans(&mut self, cs: &Vec<char>, a: usize, b: usize) -> (r: (
        Vec<(Color, Vec<char>)>,
        usize,
    ))
        requires
            old(self).wf(),
            a <= b <= cs.len(),
        ensures
            ({
                let sp = color_spans(
                    old(self).palette(),
                    old(self).color_stack@,
                    cs@.subrange(a as int, b as int),
                );
                &&& r.0@.len() == sp.0.len()
                &&& forall|k: int|
                    0 <= k < sp.0.len() ==> r.0@[k].0 == sp.0[k].0 && r.0@[k].1@ == sp.0[k].1
                &&& final(self).color_stack@ == sp.1
                &&& r.1 == spans_len(sp.0)
                &&& r.1 <= b - a
            }),
            final(self).cells() == old(self).cells(),
            final(self).colors@ == old(self).colors@,
            old(self).same_dims(*final(self)),
            final(self).wf(),
    {
        let ghost line = cs@.subrange(a as int, b as int);
        let ghost reg = old(self).palette();
        let ghost full = color_spans(reg, old(self).color_stack@, line);
        proof {
            lemma_text_len_matches_render(reg, old(self).color_stack@, line);
            lemma_visible_len_bound(line);
            lemma_spans_len_nonneg(full.0);
            assert(line.skip(0) =~= line);
        }
        let mut result: Vec<(Color, Vec<char>)> = Vec::new();
        let mut total: usize = 0;
        let mut pos: usize = a;
        let mut more = true;
        while more
            invariant
                old(self).wf(),
                self.wf(),
                old(self).same_dims(*self),
                self.cells() == old(self).cells(),
                self.colors@ == old(self).colors@,
                a <= pos <= b <= cs.len(),
                line == cs@.subrange(a as int, b as int),
                reg == old(self).palette(),
                full == color_spans(reg, old(self).color_stack@, line),
                result@.len() <= full.0.len(),
                forall|k: int|
                    0 <= k < result@.len() ==> result@[k].0 == full.0[k].0 && result@[k].1@
                        == full.0[k].1,
                more ==> ({
                    let rest = spans_rec(reg, self.color_stack@, split_tag(line.skip(pos - a)));
                    &&& rest.0 =~= full.0.skip(result@.len() as int)
                    &&& rest.1 == full.1
                    &&& total + spans_len(rest.0) == spans_len(full.0)
                }),
                !more ==> result@.len() == full.0.len() && self.color_stack@ == full.1 && total
                    == spans_len(full.0),
                total <= pos - a,
            decreases b - pos + (if more { 1int } else { 0 }),
        {
            let ghost rem = line.skip(pos - a);
            let ghost prevstack = self.color_stack@;
            let ghost rest0 = spans_rec(reg, prevstack, split_tag(rem));
            proof {
                assert(rem =~= cs@.subrange(pos as int, b as int));
                lemma_find_tag(rem);
            }
            let seg_end: usize;
            match find_tag_in(cs, pos, b) {
                Some(p) => {
                    seg_end = p;
                },
                None => {
                    seg_end = b;
                    more = false;
                },
            }
            let ghost last = !more;
            let ghost seg = if last {
                rem
            } else {
                rem.take(seg_end - pos)
            };
            let ghost segs = split_tag(rem);
            proof {
                assert(seg =~= cs@.subrange(pos as int, seg_end as int));
                if last {
                    assert(segs == seq![seg]);
                    assert(segs.drop_first() =~= Seq::<Seq<char>>::empty());
                } else {
                    assert(rem.skip(seg_end - pos + 2) =~= line.skip(seg_end + 2 - a));
                    assert(segs == seq![seg] + split_tag(rem.skip(seg_end - pos + 2)));
                    assert(segs.drop_first() =~= split_tag(line.skip(seg_end + 2 - a)));
                }
                assert(segs.first() == seg);
                lemma_find_char(seg, ']');
            }
            let ghost step = segment_step(reg, prevstack, seg);
            if seg_end > pos {
                let fore: Color;
                let content_start: usize;
                match find_char_in(cs, pos, seg_end, ']') {
                    Some(j) => {
                        let name = vstd::slice::slice_subrange(cs.as_slice(), pos, j);
                        proof {
                            assert(name@ == seg.take(j - pos));
                        }
                        match crate::text::registry_get(&self.colors, name) {
                            Some(col) => {
                                proof {
                                    assert(reg.contains_key(name@));
                                    assert(reg[name@] == col);
                                }
                                self.color_stack.push(col);
                                fore = col;
                            },
                            None => {
                                proof {
                                    assert(!reg.contains_key(name@));
                                }
                                if self.color_stack.len() > 0 {
                                    self.color_stack.pop();
                                    proof {
                                        assert(self.color_stack@ =~= prevstack.drop_last());
                                    }
                                }
                                fore = self.stack_top_color();
                            },
                        }
                        content_start = j + 1;
                    },
                    None => {
                        fore = self.stack_top_color();
                        content_start = pos;
                    },
                }
                let content = copy_range(cs, content_start, seg_end);
                proof {
                    assert(step.0 == self.color_stack@);
                    assert(step.1 == Some((fore, content@)));
                }
                result.push((fore, content));
                total += seg_end - content_start;
            } else {
                proof {
                    assert(step.0 == prevstack);
                    assert(step.1 is None);
                }
            }
            proof {
                let rest1 = spans_rec(reg, self.color_stack@, segs.drop_first());
                assert(rest0.0 == match step.1 {
                    Some(p) => seq![p] + rest1.0,
                    None => rest1.0,
                });
                assert(rest0.1 == rest1.1);
                match step.1 {
                    Some(p) => {
                        assert((seq![p] + rest1.0).first() == p);
                        assert((seq![p] + rest1.0).drop_first() =~= rest1.0);
                        assert(spans_len(rest0.0) == p.1.len() + spans_len(rest1.0));
                        assert(full.0[result@.len() - 1] == p);
                        assert(rest1.0 =~= full.0.skip(result@.len() as int));
                    },
                    None => {},
                }
                if last {
                    assert(rest1.0 =~= Seq::<(Color, Seq<char>)>::empty());
                    assert(spans_len(rest1.0) == 0);
                    assert(rest1.1 == self.color_stack@);
                    assert(result@.len() == full.0.len());
                }
            }
            if more {
                pos = seg_end + 2;
            } else {
                pos = b;
            }
        }
        (result, total)
    }
}

impl Console {
    /// Lay out one line of markup text anchored at `(x, y)`.
    fn print_line_color(
        &mut self,
        x: i64,
        y: i64,
        cs: &Vec<char>,
        a: usize,
        b: usize,
        align: TextAlign,
        back: Option<Color>,
    )
        requires
            old(self).wf(),
            a <= b <= cs.len(),
            b - a <= 0x7fff_ffff,
            -0x4000_0000_0000 <= x <= 0x4000_0000_0000,
            -0x4000_0000_0000 <= y <= 0x4000_0000_0000,
        ensures
            ({
                let one = line_color_op(
                    *old(self),
                    old(self).palette(),
                    old(self).cells(),
                    old(self).color_stack@,
                    x as int,
                    y as int,
                    cs@.subrange(a as int, b as int),
                    align,
                    back,
                );
                final(self).cells() == one.0 && final(self).color_stack@ == one.1
            }),
            final(self).colors@ == old(self).colors@,
            old(self).same_dims(*final(self)),
            final(self).wf(),
    {
        let ghost orig = *old(self);
        let ghost line = cs@.subrange(a as int, b as int);
        let ghost sp = color_spans(orig.palette(), orig.color_stack@, line);
        let (spans, total) = self.get_color_spans(cs, a, b);
        proof {
            lemma_spans_len_nonneg(sp.0);
        }
        let n: i64 = total as i64;
        let ix0: i64 = match align {
            TextAlign::Left => x,
            TextAlign::Right => x - n + 1,
            TextAlign::Center => x - ((n as u64 / 2) as i64),
        };
        let ghost gix0 = align_start(x as int, spans_len(sp.0), align);
        proof {
            assert(gix0 == ix0);
        }
        let ghost cells0 = self.cells();
        proof {
            assert(sp.0.skip(0) =~= sp.0);
            assert(sp.0.take(0) =~= Seq::<(Color, Seq<char>)>::empty());
            assert(spans_len(sp.0.take(0)) == 0);
        }
        let mut ix: i64 = ix0;
        let mut k: usize = 0;
        let m = spans.len();
        while k < m
            invariant
                orig.wf(),
                self.wf(),
                orig.same_dims(*self),
                self.colors@ == orig.colors@,
                self.color_stack@ == sp.1,
                m == spans@.len() == sp.0.len(),
                k <= m,
                total == spans_len(sp.0),
                total <= 0x7fff_ffff,
                forall|j: int|
                    0 <= j < sp.0.len() ==> spans@[j].0 == sp.0[j].0 && spans@[j].1@ == sp.0[j].1,
                -0x4000_0000_0000 <= y <= 0x4000_0000_0000,
                -0x4002_0000_0000 <= gix0 <= 0x4002_0000_0000,
                ix == gix0 + spans_len(sp.0.take(k as int)),
                0 <= spans_len(sp.0.take(k as int)) <= total,
                spans_fold(orig, cells0, gix0, y as int, sp.0, back) == spans_fold(
                    orig,
                    self.cells(),
                    ix as int,
                    y as int,
                    sp.0.skip(k as int),
                    back,
                ),
            decreases m - k,
        {
            proof {
                lemma_spans_len_take_step(sp.0, k as int);
                lemma_spans_len_split(sp.0, k as int);
                lemma_spans_len_nonneg(sp.0.take(k as int));
                lemma_spans_len_nonneg(sp.0.skip(k as int));
                lemma_spans_len_split(sp.0, k + 1);
                lemma_spans_len_nonneg(sp.0.skip(k + 1));
                assert(sp.0.skip(k as int).first() == sp.0[k as int]);
            }
            let ghost before = self.cells();
            let ghost precon = *self;
            let sv = &spans[k];
            let svlen = sv.1.len();
            proof {
                assert(sv.1@ == sp.0[k as int].1);
                assert(svlen == sp.0[k as int].1.len());
                assert(sv.1@.subrange(0, svlen as int) =~= sv.1@);
            }
            self.print_line(ix, y, &sv.1, 0, svlen, TextAlign::Left, Some(sv.0), back);
            proof {
                lemma_line_op_dims(precon, orig, before, ix as int, y as int, sp.0[k as int].1,
                    TextAlign::Left, Some(sp.0[k as int].0), back);
                assert(sp.0.skip(k as int).drop_first() =~= sp.0.skip(k + 1));
                assert(spans_fold(orig, before, ix as int, y as int, sp.0.skip(k as int), back)
                    == spans_fold(orig, self.cells(), ix + svlen, y as int, sp.0.skip(k + 1),
                    back));
            }
            ix = ix + svlen as i64;
            k += 1;
        }
        proof {
            assert(sp.0.skip(m as int) =~= Seq::<(Color, Seq<char>)>::empty());
            assert(spans_fold(orig, self.cells(), ix as int, y as int, sp.0.skip(m as int), back)
                == self.cells());
        }
    }

    /// write a multi-color string. Foreground color is defined by
    /// `#[color_name]` patterns inside the string. The color name must have
    /// been registered with [`Console::register_color`] before; the default
    /// foreground color, at the start of the string, is white. An unknown
    /// color name reverts to the previous color, so an empty name ends a
    /// color span. The parse stack is reset at the start of every call.
    pub fn print_color(&mut self, x: i32, y: i32, text: &str, align: TextAlign, back: Option<Color>)
        requires
            old(self).wf(),
            text@.len() <= 0x7fff_ffff,
        ensures
            ({
                let r = print_color_op(
                    *old(self),
                    old(self).palette(),
                    old(self).cells(),
                    Seq::<Color>::empty(),
                    x as int,
                    y as int,
                    split_lines(text@),
                    align,
                    back,
                );
                final(self).cells() == r.0 && final(self).color_stack@ == r.1
            }),
            final(self).colors@ == old(self).colors@,
            old(self).same_dims(*final(self)),
            final(self).wf(),
    {
        let cs = str_chars(text);
        let n = cs.len();
        let ghost orig = *old(self);
        self.color_stack = Vec::new();
        let mut pos: usize = 0;
        let mut cury: i64 = y as i64;
        let mut more = true;
        proof {
            assert(cs@.skip(0) =~= cs@);
            assert(self.color_stack@ =~= Seq::<Color>::empty());
        }
        while more
            invariant
                orig == *old(self),
                orig.wf(),
                self.wf(),
                orig.same_dims(*self),
                self.colors@ == orig.colors@,
                pos <= n == cs.len(),
                cs@ == text@,
                n <= 0x7fff_ffff,
                y <= cury <= y + pos + 1,
                more ==> print_color_op(orig, orig.palette(), orig.cells(), Seq::<Color>::empty(),
                    x as int, y as int, split_lines(text@), align, back) == print_color_op(orig,
                    orig.palette(), self.cells(), self.color_stack@, x as int, cury as int,
                    split_lines(cs@.skip(pos as int)), align, back),
                !more ==> ({
                    let r = print_color_op(orig, orig.palette(), orig.cells(),
                        Seq::<Color>::empty(), x as int, y as int, split_lines(text@), align,
                        back);
                    self.cells() == r.0 && self.color_stack@ == r.1
                }),
            decreases n - pos + (if more { 1int } else { 0 }),
        {
            let ghost rem = cs@.skip(pos as int);
            let ghost lines = split_lines(rem);
            proof {
                lemma_find_char(rem, '\n');
            }
            let line_end: usize;
            match find_char_in(&cs, pos, n, '\n') {
                Some(p) => {
                    line_end = p;
                },
                None => {
                    line_end = n;
                    more = false;
                },
            }
            proof {
                assert(cs@.subrange(pos as int, n as int) =~= rem);
                if more {
                    assert(rem.take(line_end - pos) =~= cs@.subrange(pos as int, line_end as int));
                    assert(rem.skip(line_end - pos + 1) =~= cs@.skip(line_end + 1));
                    assert(lines == seq![rem.take(line_end - pos)] + split_lines(rem.skip(
                        line_end - pos + 1,
                    )));
                    assert(lines.first() == cs@.subrange(pos as int, line_end as int));
                    assert(lines.drop_first() =~= split_lines(cs@.skip(line_end + 1)));
                } else {
                    assert(lines == seq![rem]);
                    assert(lines.first() == cs@.subrange(pos as int, n as int));
                    assert(lines.drop_first() =~= Seq::<Seq<char>>::empty());
                }
            }
            let ghost before = self.cells();
            let ghost prestack = self.color_stack@;
            let ghost precon = *self;
            proof {
                orig.lemma_dims_bounds();
                assert(precon.palette() == orig.palette());
            }
            self.print_line_color(x as i64, cury, &cs, pos, line_end, align, back);
            proof {
                let one = line_color_op(precon, orig.palette(), before, prestack, x as int,
                    cury as int, cs@.subrange(pos as int, line_end as int), align, back);
                lemma_spans_fold_dims(precon, orig, before,
                    align_start(x as int, spans_len(color_spans(orig.palette(), prestack,
                    cs@.subrange(pos as int, line_end as int)).0), align), cury as int,
                    color_spans(orig.palette(), prestack,
                    cs@.subrange(pos as int, line_end as int)).0, back);
                assert(print_color_op(orig, orig.palette(), before, prestack, x as int,
                    cury as int, lines, align, back) == print_color_op(orig, orig.palette(),
                    self.cells(), self.color_stack@, x as int, cury + 1, lines.drop_first(),
                    align, back));
                if !more {
                    assert(print_color_op(orig, orig.palette(), self.cells(), self.color_stack@,
                        x as int, cury + 1, Seq::<Seq<char>>::empty(), align, back) == (
                    self.cells(), self.color_stack@));
                }
            }
            if more {
                pos = line_end + 1;
                cury = cury + 1;
            } else {
                pos = n;
            }
        }
    }
}

} // verus!
