//! The text notation of levels: bottles separated by white space. Colours
//! are letters (`R O Y G g B M P W L`, `?` for a mystery layer), written from
//! the top layer down, or `#rrggbb` hex colours when the text holds a `#`; in
//! hex, a plain bottle is written from its bottom layer up and the layers of a
//! revealed hidden bottle from the top down. `E` stands for an empty layer. A
//! hidden bottle is written `!X` while it is locked, and `!X,layers` once
//! revealed, `X` being the colour it waits for.
use vstd::prelude::*;

use crate::bottle::{
    colors_of, layers_from_colors, Bottle, BottleView, HiddenRequirement, Layer,
};
use crate::color::{
    hex_digit, hex_digit_exec, hex_field, is_hex_color, spec_bgr_from_hex, spec_palette, BottleColor,
};
use crate::rules::state_v;
use crate::text::{push_char, str_to_chars};

verus! {

/// White space as `char::is_whitespace` reads it.
pub open spec fn is_space(c: char) -> bool {
    ||| c == ' '
    ||| c == '\t'
    ||| c == '\n'
    ||| c == '\r'
    ||| c == '\x0b'
    ||| c == '\x0c'
    ||| c == '\u{85}'
    ||| c == '\u{a0}'
    ||| c == '\u{1680}'
    ||| ('\u{2000}' <= c && c <= '\u{200a}')
    ||| c == '\u{2028}'
    ||| c == '\u{2029}'
    ||| c == '\u{202f}'
    ||| c == '\u{205f}'
    ||| c == '\u{3000}'
}

fn is_space_exec(c: char) -> (r: bool)
    ensures
        r == is_space(c),
{
    c == ' ' || c == '\t' || c == '\n' || c == '\r' || c == '\x0b' || c == '\x0c' || c == '\u{85}'
        || c == '\u{a0}' || c == '\u{1680}' || ('\u{2000}' <= c && c <= '\u{200a}') || c
        == '\u{2028}' || c == '\u{2029}' || c == '\u{202f}' || c == '\u{205f}' || c == '\u{3000}'
}

/// The words of a text: its maximal runs of characters that are not white
/// space, in order.
pub open spec fn words(s: Seq<char>) -> Seq<Seq<char>>
    decreases s.len(),
{
    if s.len() == 0 {
        Seq::empty()
    } else {
        let w = words(s.drop_last());
        let c = s.last();
        if is_space(c) {
            w
        } else if s.len() >= 2 && !is_space(s[s.len() - 2]) && w.len() > 0 {
            w.update(w.len() - 1, w.last().push(c))
        } else {
            w.push(seq![c])
        }
    }
}

/// The parts of a text between `#` characters, as `str::split('#')` gives them.
pub open spec fn split_hash(t: Seq<char>) -> Seq<Seq<char>>
    decreases t.len(),
{
    if t.len() == 0 {
        seq![Seq::empty()]
    } else {
        let p = split_hash(t.drop_last());
        if t.last() == '#' {
            p.push(Seq::empty())
        } else {
            p.update(p.len() - 1, p.last().push(t.last()))
        }
    }
}

/// The colour a letter names.
pub open spec fn letter_color(c: char) -> Option<BottleColor> {
    if c == 'R' {
        Some(BottleColor::Fill(0x24, 0x1a, 0xdf))
    } else if c == 'O' {
        Some(BottleColor::Fill(0x1c, 0x7c, 0xf3))
    } else if c == 'Y' {
        Some(BottleColor::Fill(0x20, 0xdf, 0xfb))
    } else if c == 'G' {
        Some(BottleColor::Fill(0x1e, 0xde, 0x46))
    } else if c == 'g' {
        Some(BottleColor::Fill(0x33, 0xed, 0xa3))
    } else if c == 'B' {
        Some(BottleColor::Fill(0xf9, 0x4a, 0x19))
    } else if c == 'M' {
        Some(BottleColor::Fill(0xfb, 0xb7, 0x52))
    } else if c == 'P' {
        Some(BottleColor::Fill(0xd9, 0x00, 0x8c))
    } else if c == 'W' {
        Some(BottleColor::Fill(0xcc, 0x12, 0xd2))
    } else if c == 'L' {
        Some(BottleColor::Fill(0xfe, 0xf8, 0x2c))
    } else if c == '?' {
        Some(BottleColor::Mystery)
    } else {
        None
    }
}

/// The letter of a colour; `?` for a mystery layer and for colours that no
/// letter names.
pub open spec fn char_of(c: BottleColor) -> char {
    match c {
        BottleColor::Fill(0x20, 0xdf, 0xfb) => 'Y',
        BottleColor::Fill(0x24, 0x1a, 0xdf) => 'R',
        BottleColor::Fill(0x1e, 0xde, 0x46) => 'G',
        BottleColor::Fill(0x33, 0xed, 0xa3) => 'g',
        BottleColor::Fill(0xfe, 0xf8, 0x2c) => 'L',
        BottleColor::Fill(0xfb, 0xb7, 0x52) => 'M',
        BottleColor::Fill(0xf9, 0x4a, 0x19) => 'B',
        BottleColor::Fill(0x8e, 0x4a, 0x43) => 'D',
        BottleColor::Fill(0xd9, 0x00, 0x8c) => 'P',
        BottleColor::Fill(0xcc, 0x12, 0xd2) => 'W',
        BottleColor::Fill(0x1c, 0x7c, 0xf3) => 'O',
        _ => '?',
    }
}

/// The layers of a word in letters, read from the top down and stored from
/// the bottom up; `E` marks an empty layer and is left out.
pub open spec fn letter_fills(t: Seq<char>) -> Seq<BottleColor> {
    t.filter(|c: char| c != 'E').map_values(|c: char| letter_color(c)->0).reverse()
}

/// Every character of a word of layers is `E` or a letter of a colour.
pub open spec fn letter_fills_ok(t: Seq<char>) -> bool {
    forall|i: int| 0 <= i < t.len() ==> t[i] == 'E' || (#[trigger] letter_color(t[i])) is Some
}

/// The index of the first `c` in `t`, if any.
pub open spec fn find_char(t: Seq<char>, c: char) -> Option<int>
    decreases t.len(),
{
    if t.len() == 0 {
        None
    } else if t[0] == c {
        Some(0)
    } else {
        match find_char(t.drop_first(), c) {
            Some(i) => Some(i + 1),
            None => None,
        }
    }
}

/// The part of a hidden bottle's word before its first `,`.
pub open spec fn requirement_part(t: Seq<char>) -> Seq<char> {
    match find_char(t, ',') {
        Some(k) => t.subrange(0, k),
        None => t,
    }
}

/// The part of a hidden bottle's word after its first `,`, if it has one.
pub open spec fn fills_part(t: Seq<char>) -> Option<Seq<char>> {
    match find_char(t, ',') {
        Some(k) => Some(t.subrange(k + 1, t.len() as int)),
        None => None,
    }
}

/// A hidden bottle with its colour: revealed with these layers, or locked.
pub open spec fn hidden_bottle(req: BottleColor, fills: Option<Seq<BottleColor>>) -> BottleView {
    match fills {
        Some(f) => (layers_from_colors(f), HiddenRequirement::Unlocked(req), None),
        None => (Seq::empty(), HiddenRequirement::Locked(req), None),
    }
}

/// The bottle a word in letters stands for.
pub open spec fn letter_bottle(t: Seq<char>) -> BottleView {
    if t.len() > 0 && t[0] == '!' {
        hidden_bottle(
            letter_color(requirement_part(t)[1])->0,
            match fills_part(t) {
                Some(f) => Some(letter_fills(f)),
                None => None,
            },
        )
    } else {
        (layers_from_colors(letter_fills(t)), HiddenRequirement::NoRequirement, None)
    }
}

/// A word in letters that stands for a bottle.
pub open spec fn letter_word_ok(t: Seq<char>) -> bool {
    if t.len() > 0 && t[0] == '!' {
        &&& requirement_part(t).len() >= 2
        &&& letter_color(requirement_part(t)[1]) is Some
        &&& fills_part(t) matches Some(f) ==> letter_fills_ok(f)
    } else {
        letter_fills_ok(t)
    }
}

/// A part between `#` characters that stands for no layer: empty, or only
/// `E` characters.
pub open spec fn blank_part(p: Seq<char>) -> bool {
    forall|i: int| 0 <= i < p.len() ==> p[i] == 'E'
}

/// The colour a hex part stands for.
pub open spec fn hex_part_color(p: Seq<char>) -> BottleColor {
    let c = spec_bgr_from_hex(seq!['#'] + p);
    BottleColor::Fill(c.0, c.1, c.2)
}

/// The hex colours of a word, in the order in which they are written.
pub open spec fn hex_fills(t: Seq<char>) -> Seq<BottleColor> {
    split_hash(t).filter(|p: Seq<char>| !blank_part(p)).map_values(
        |p: Seq<char>| hex_part_color(p),
    )
}

pub open spec fn hex_fills_ok(t: Seq<char>) -> bool {
    forall|i: int|
        0 <= i < split_hash(t).len() && !blank_part(#[trigger] split_hash(t)[i]) ==> is_hex_color(
            seq!['#'] + split_hash(t)[i],
        )
}

/// A word without its leading `!` characters.
pub open spec fn trim_bangs(t: Seq<char>) -> Seq<char>
    decreases t.len(),
{
    if t.len() > 0 && t[0] == '!' {
        trim_bangs(t.drop_first())
    } else {
        t
    }
}

/// The colour a hex word names: its characters after the leading `!`s.
pub open spec fn hex_requirement(t: Seq<char>) -> BottleColor {
    let c = spec_bgr_from_hex(trim_bangs(requirement_part(t)));
    BottleColor::Fill(c.0, c.1, c.2)
}

/// The bottle a word in hex colours stands for: a plain bottle is written
/// from its bottom layer up, the layers of a revealed hidden bottle from the
/// top down.
pub open spec fn hex_bottle(t: Seq<char>) -> BottleView {
    if t.len() > 0 && t[0] == '!' {
        hidden_bottle(
            hex_requirement(t),
            match fills_part(t) {
                Some(f) => Some(hex_fills(f).reverse()),
                None => None,
            },
        )
    } else {
        (layers_from_colors(hex_fills(t)), HiddenRequirement::NoRequirement, None)
    }
}

pub open spec fn hex_word_ok(t: Seq<char>) -> bool {
    if t.len() > 0 && t[0] == '!' {
        &&& is_hex_color(trim_bangs(requirement_part(t)))
        &&& fills_part(t) matches Some(f) ==> hex_fills_ok(f)
    } else {
        hex_fills_ok(t)
    }
}

/// The text holds a `#`: its colours are hex colours.
pub open spec fn uses_hex(s: Seq<char>) -> bool {
    s.contains('#')
}

/// The bottles a text stands for.
pub open spec fn parse_level(s: Seq<char>) -> Seq<BottleView> {
    if uses_hex(s) {
        words(s).map_values(|w: Seq<char>| hex_bottle(w))
    } else {
        words(s).map_values(|w: Seq<char>| letter_bottle(w))
    }
}

/// Every word of the text stands for a bottle.
pub open spec fn level_text_ok(s: Seq<char>) -> bool {
    if uses_hex(s) {
        forall|i: int| 0 <= i < words(s).len() ==> hex_word_ok(#[trigger] words(s)[i])
    } else {
        forall|i: int| 0 <= i < words(s).len() ==> letter_word_ok(#[trigger] words(s)[i])
    }
}

/// The views of a list of character vectors.
pub open spec fn char_vecs_v(v: Seq<Vec<char>>) -> Seq<Seq<char>> {
    v.map_values(|x: Vec<char>| x@)
}

/// The words of a text.
fn split_words(s: &Vec<char>) -> (r: Vec<Vec<char>>)
    ensures
        char_vecs_v(r@) == words(s@),
{
    let mut done: Vec<Vec<char>> = Vec::new();
    let mut cur: Vec<char> = Vec::new();
    let mut i: usize = 0;
    proof {
        assert(s@.subrange(0, 0) =~= Seq::<char>::empty());
        assert(char_vecs_v(done@) =~= Seq::<Seq<char>>::empty());
    }
    while i < s.len()
        invariant
            i <= s.len(),
            cur@.len() > 0 <==> (i > 0 && !is_space(s@[i - 1])),
            words(s@.subrange(0, i as int)) == if cur@.len() > 0 {
                char_vecs_v(done@).push(cur@)
            } else {
                char_vecs_v(done@)
            },
        decreases s.len() - i,
    {
        let c = s[i];
        let ghost prefix = s@.subrange(0, i + 1);
        proof {
            assert(prefix.drop_last() =~= s@.subrange(0, i as int));
            assert(prefix.last() == c);
            if i > 0 {
                assert(prefix[prefix.len() - 2] == s@[i - 1]);
            }
        }
        if is_space_exec(c) {
            if cur.len() > 0 {
                let word = cur;
                done.push(word);
                cur = Vec::new();
                proof {
                    assert(char_vecs_v(done@) =~= char_vecs_v(done@.drop_last()).push(word@));
                }
            }
        } else {
            let ghost old_cur = cur@;
            let ghost old_done = char_vecs_v(done@);
            cur.push(c);
            proof {
                if old_cur.len() > 0 {
                    assert(old_done.push(old_cur).update(old_done.len() as int, old_cur.push(c))
                        =~= old_done.push(cur@));
                } else {
                    assert(words(prefix) == words(s@.subrange(0, i as int)).push(seq![c]));
                    assert(seq![c] =~= cur@);
                }
            }
        }
        i = i + 1;
    }
    if cur.len() > 0 {
        let word = cur;
        done.push(word);
        proof {
            assert(char_vecs_v(done@) =~= char_vecs_v(done@.drop_last()).push(word@));
        }
    }
    proof {
        assert(s@.subrange(0, s@.len() as int) =~= s@);
    }
    done
}

fn sub_chars(t: &Vec<char>, from: usize, to: usize) -> (r: Vec<char>)
    requires
        from <= to <= t@.len(),
    ensures
        r@ == t@.subrange(from as int, to as int),
{
    let mut out: Vec<char> = Vec::new();
    let mut i: usize = from;
    while i < to
        invariant
            from <= i <= to,
            to <= t@.len(),
            out@ == t@.subrange(from as int, i as int),
        decreases to - i,
    {
        out.push(t[i]);
        proof {
            assert(out@ =~= t@.subrange(from as int, i + 1));
        }
        i = i + 1;
    }
    out
}

fn reverse_colors(v: &Vec<BottleColor>) -> (r: Vec<BottleColor>)
    ensures
        r@ == v@.reverse(),
{
    let mut out: Vec<BottleColor> = Vec::new();
    let mut i: usize = v.len();
    while i > 0
        invariant
            i <= v@.len(),
            out@ == v@.subrange(i as int, v@.len() as int).reverse(),
        decreases i,
    {
        i = i - 1;
        out.push(v[i]);
        proof {
            assert(out@ =~= v@.subrange(i as int, v@.len() as int).reverse());
        }
    }
    proof {
        assert(v@.subrange(0, v@.len() as int) =~= v@);
    }
    out
}

fn find_comma(t: &Vec<char>) -> (r: Option<usize>)
    ensures
        match find_char(t@, ',') {
            Some(k) => r == Some(k as usize) && 0 <= k < t@.len(),
            None => r is None,
        },
{
    let mut i: usize = 0;
    proof {
        assert(t@.subrange(0, t@.len() as int) =~= t@);
    }
    while i < t.len()
        invariant
            i <= t@.len(),
            find_char(t@, ',') == match find_char(t@.subrange(i as int, t@.len() as int), ',') {
                Some(k) => Some(k + i),
                None => None::<int>,
            },
        decreases t@.len() - i,
    {
        let ghost rest = t@.subrange(i as int, t@.len() as int);
        proof {
            assert(rest.drop_first() =~= t@.subrange(i + 1, t@.len() as int));
            assert(rest[0] == t@[i as int]);
        }
        if t[i] == ',' {
            return Some(i);
        }
        i = i + 1;
    }
    proof {
        assert(t@.subrange(i as int, t@.len() as int) =~= Seq::<char>::empty());
    }
    None
}

/// The colour a letter names, for the letters of the notation.
pub fn bottle_color_from_char(c: char) -> (r: Option<BottleColor>)
    ensures
        r == letter_color(c),
{
    if c == 'R' {
        Some(BottleColor::red())
    } else if c == 'O' {
        Some(BottleColor::orange())
    } else if c == 'Y' {
        Some(BottleColor::yellow())
    } else if c == 'G' {
        Some(BottleColor::green())
    } else if c == 'g' {
        Some(BottleColor::light_green())
    } else if c == 'B' {
        Some(BottleColor::blue())
    } else if c == 'M' {
        Some(BottleColor::medium_blue())
    } else if c == 'P' {
        Some(BottleColor::purple())
    } else if c == 'W' {
        Some(BottleColor::pink())
    } else if c == 'L' {
        Some(BottleColor::light_blue())
    } else if c == '?' {
        Some(BottleColor::Mystery)
    } else {
        None
    }
}

/// The layers a word in letters stands for, stored from the bottom up.
fn parse_letter_fills(t: &Vec<char>) -> (r: Vec<BottleColor>)
    requires
        letter_fills_ok(t@),
    ensures
        r@ == letter_fills(t@),
{
    let ghost pred = |c: char| c != 'E';
    let ghost f = |c: char| letter_color(c)->0;
    let mut fwd: Vec<BottleColor> = Vec::new();
    let mut i: usize = 0;
    proof {
        reveal(Seq::filter);
        assert(t@.subrange(0, 0).filter(pred) =~= Seq::<char>::empty());
        assert(fwd@ =~= t@.subrange(0, 0).filter(pred).map_values(f));
    }
    while i < t.len()
        invariant
            i <= t@.len(),
            letter_fills_ok(t@),
            pred == (|c: char| c != 'E'),
            f == (|c: char| letter_color(c)->0),
            fwd@ == t@.subrange(0, i as int).filter(pred).map_values(f),
        decreases t@.len() - i,
    {
        let c = t[i];
        proof {
            assert(t@.subrange(0, i + 1) =~= t@.subrange(0, i as int).push(c));
            t@.subrange(0, i as int).lemma_filter_push(c, pred);
        }
        if c != 'E' {
            let color = match bottle_color_from_char(c) {
                Some(color) => color,
                None => BottleColor::Empty,
            };
            proof {
                assert(letter_color(t@[i as int]) is Some);
            }
            let ghost before = fwd@;
            fwd.push(color);
            proof {
                assert(fwd@ =~= t@.subrange(0, i + 1).filter(pred).map_values(f));
            }
        } else {
            proof {
                assert(fwd@ =~= t@.subrange(0, i + 1).filter(pred).map_values(f));
            }
        }
        i = i + 1;
    }
    proof {
        assert(t@.subrange(0, t@.len() as int) =~= t@);
    }
    reverse_colors(&fwd)
}

/// A bottle with a hidden requirement, as the notation writes it.
fn hidden_from_parts(req: BottleColor, fills: Option<Vec<BottleColor>>) -> (r: Bottle)
    ensures
        r@ == hidden_bottle(
            req,
            match fills {
                Some(f) => Some(f@),
                None => None,
            },
        ),
{
    match fills {
        Some(f) => {
            let mut bottle = Bottle::from_fills(f, None);
            bottle.set_hidden_requirement(HiddenRequirement::Unlocked(req));
            bottle
        },
        None => {
            let mut bottle = Bottle::from_hidden_requirement(req, None);
            bottle.set_hidden_requirement(HiddenRequirement::Locked(req));
            bottle
        },
    }
}

/// The bottle a word in letters stands for.
fn parse_letter_word(t: &Vec<char>) -> (r: Bottle)
    requires
        letter_word_ok(t@),
    ensures
        r@ == letter_bottle(t@),
{
    if t.len() > 0 && t[0] == '!' {
        let comma = find_comma(t);
        let end = match comma {
            Some(k) => k,
            None => t.len(),
        };
        proof {
            assert(requirement_part(t@) == t@.subrange(0, end as int));
        }
        let req = match bottle_color_from_char(t[1]) {
            Some(c) => c,
            None => BottleColor::Empty,
        };
        let fills = match comma {
            Some(k) => {
                let part = sub_chars(t, k + 1, t.len());
                Some(parse_letter_fills(&part))
            },
            None => None,
        };
        hidden_from_parts(req, fills)
    } else {
        let fills = parse_letter_fills(t);
        Bottle::from_fills(fills, None)
    }
}

proof fn lemma_split_hash_len(t: Seq<char>)
    ensures
        split_hash(t).len() >= 1,
    decreases t.len(),
{
    if t.len() > 0 {
        lemma_split_hash_len(t.drop_last());
    }
}

/// The parts of a word between `#` characters.
fn split_on_hash(t: &Vec<char>) -> (r: Vec<Vec<char>>)
    ensures
        char_vecs_v(r@) == split_hash(t@),
{
    let mut parts: Vec<Vec<char>> = Vec::new();
    parts.push(Vec::new());
    let mut i: usize = 0;
    proof {
        assert(t@.subrange(0, 0) =~= Seq::<char>::empty());
        assert(char_vecs_v(parts@) =~= seq![Seq::<char>::empty()]);
    }
    while i < t.len()
        invariant
            i <= t@.len(),
            parts@.len() >= 1,
            char_vecs_v(parts@) == split_hash(t@.subrange(0, i as int)),
        decreases t@.len() - i,
    {
        let c = t[i];
        let ghost prefix = t@.subrange(0, i + 1);
        let ghost before = char_vecs_v(parts@);
        proof {
            assert(prefix.drop_last() =~= t@.subrange(0, i as int));
            assert(prefix.last() == c);
        }
        if c == '#' {
            parts.push(Vec::new());
            proof {
                assert(char_vecs_v(parts@) =~= before.push(Seq::<char>::empty()));
            }
        } else {
            let mut last = match parts.pop() {
                Some(v) => v,
                None => Vec::new(),
            };
            last.push(c);
            parts.push(last);
            proof {
                assert(char_vecs_v(parts@) =~= before.update(
                    before.len() - 1,
                    before.last().push(c),
                ));
            }
        }
        i = i + 1;
    }
    proof {
        assert(t@.subrange(0, t@.len() as int) =~= t@);
    }
    parts
}

fn is_blank(p: &Vec<char>) -> (r: bool)
    ensures
        r == blank_part(p@),
{
    let mut i: usize = 0;
    while i < p.len()
        invariant
            i <= p@.len(),
            forall|k: int| 0 <= k < i ==> p@[k] == 'E',
        decreases p@.len() - i,
    {
        if p[i] != 'E' {
            return false;
        }
        i = i + 1;
    }
    true
}

/// The colour written as `#` followed by the characters of `p`.
fn hex_color_of(p: &Vec<char>, with_hash: bool) -> (r: BottleColor)
    requires
        with_hash ==> is_hex_color(seq!['#'] + p@),
        !with_hash ==> is_hex_color(p@),
    ensures
        with_hash ==> r == hex_part_color(p@),
        !with_hash ==> r == ({
            let c = spec_bgr_from_hex(p@);
            BottleColor::Fill(c.0, c.1, c.2)
        }),
{
    let mut text = String::new();
    if with_hash {
        push_char(&mut text, '#');
    }
    let mut i: usize = 0;
    proof {
        assert(p@.subrange(0, 0) =~= Seq::<char>::empty());
        if with_hash {
            assert(text@ =~= seq!['#'] + p@.subrange(0, 0));
        } else {
            assert(text@ =~= p@.subrange(0, 0));
        }
    }
    while i < p.len()
        invariant
            i <= p@.len(),
            with_hash ==> text@ == seq!['#'] + p@.subrange(0, i as int),
            !with_hash ==> text@ == p@.subrange(0, i as int),
        decreases p@.len() - i,
    {
        push_char(&mut text, p[i]);
        proof {
            if with_hash {
                assert(text@ =~= seq!['#'] + p@.subrange(0, i + 1));
            } else {
                assert(text@ =~= p@.subrange(0, i + 1));
            }
        }
        i = i + 1;
    }
    proof {
        assert(p@.subrange(0, p@.len() as int) =~= p@);
    }
    BottleColor::from_hex(text.as_str())
}

/// The hex colours of a word, in the order in which they are written.
fn parse_hex_fills(t: &Vec<char>) -> (r: Vec<BottleColor>)
    requires
        hex_fills_ok(t@),
    ensures
        r@ == hex_fills(t@),
{
    let parts = split_on_hash(t);
    let ghost ps = split_hash(t@);
    let ghost pred = |p: Seq<char>| !blank_part(p);
    let ghost f = |p: Seq<char>| hex_part_color(p);
    let mut fwd: Vec<BottleColor> = Vec::new();
    let mut i: usize = 0;
    proof {
        reveal(Seq::filter);
        assert(ps.subrange(0, 0).filter(pred) =~= Seq::<Seq<char>>::empty());
        assert(fwd@ =~= ps.subrange(0, 0).filter(pred).map_values(f));
    }
    while i < parts.len()
        invariant
            i <= parts@.len(),
            ps == split_hash(t@),
            char_vecs_v(parts@) == ps,
            hex_fills_ok(t@),
            pred == (|p: Seq<char>| !blank_part(p)),
            f == (|p: Seq<char>| hex_part_color(p)),
            fwd@ == ps.subrange(0, i as int).filter(pred).map_values(f),
        decreases parts@.len() - i,
    {
        let part = &parts[i];
        proof {
            assert(ps[i as int] == part@);
            assert(ps.subrange(0, i + 1) =~= ps.subrange(0, i as int).push(part@));
            ps.subrange(0, i as int).lemma_filter_push(part@, pred);
        }
        if !is_blank(part) {
            let color = hex_color_of(part, true);
            fwd.push(color);
            proof {
                assert(fwd@ =~= ps.subrange(0, i + 1).filter(pred).map_values(f));
            }
        } else {
            proof {
                assert(fwd@ =~= ps.subrange(0, i + 1).filter(pred).map_values(f));
            }
        }
        i = i + 1;
    }
    proof {
        assert(ps.subrange(0, ps.len() as int) =~= ps);
    }
    fwd
}

/// The characters of a word after its leading `!`s.
fn trim_leading_bangs(t: &Vec<char>) -> (r: Vec<char>)
    ensures
        r@ == trim_bangs(t@),
{
    let mut i: usize = 0;
    proof {
        assert(t@.subrange(0, t@.len() as int) =~= t@);
    }
    while i < t.len() && t[i] == '!'
        invariant
            i <= t@.len(),
            trim_bangs(t@) == trim_bangs(t@.subrange(i as int, t@.len() as int)),
        decreases t@.len() - i,
    {
        proof {
            assert(t@.subrange(i as int, t@.len() as int).drop_first() =~= t@.subrange(
                i + 1,
                t@.len() as int,
            ));
        }
        i = i + 1;
    }
    sub_chars(t, i, t.len())
}

/// The bottle a word in hex colours stands for.
fn parse_hex_word(t: &Vec<char>) -> (r: Bottle)
    requires
        hex_word_ok(t@),
    ensures
        r@ == hex_bottle(t@),
{
    if t.len() > 0 && t[0] == '!' {
        let comma = find_comma(t);
        let end = match comma {
            Some(k) => k,
            None => t.len(),
        };
        let head = sub_chars(t, 0, end);
        proof {
            assert(requirement_part(t@) == head@);
        }
        let trimmed = trim_leading_bangs(&head);
        let req = hex_color_of(&trimmed, false);
        let fills = match comma {
            Some(k) => {
                let part = sub_chars(t, k + 1, t.len());
                Some(reverse_colors(&parse_hex_fills(&part)))
            },
            None => None,
        };
        hidden_from_parts(req, fills)
    } else {
        let fills = parse_hex_fills(t);
        Bottle::from_fills(fills, None)
    }
}

fn contains_hash(t: &Vec<char>) -> (r: bool)
    ensures
        r == t@.contains('#'),
{
    let mut i: usize = 0;
    while i < t.len()
        invariant
            i <= t@.len(),
            forall|k: int| 0 <= k < i ==> t@[k] != '#',
        decreases t@.len() - i,
    {
        if t[i] == '#' {
            return true;
        }
        i = i + 1;
    }
    false
}

/// Helpers to write levels in the text notation.
pub struct TestUtils;

impl TestUtils {
    /// The bottles a text in the notation stands for: hex colours when the
    /// text holds a `#`, letters otherwise.
    pub fn parse_bottles_sequence(bottle_str: &str) -> (r: Vec<Bottle>)
        requires
            level_text_ok(bottle_str@),
        ensures
            state_v(r@) == parse_level(bottle_str@),
    {
        let chars = str_to_chars(bottle_str);
        if contains_hash(&chars) {
            Self::parse_bottles_sequence_new_format(bottle_str)
        } else {
            Self::parse_bottles_sequence_old_format(bottle_str)
        }
    }

    /// The bottles a text in hex colours stands for.
    pub fn parse_bottles_sequence_new_format(sequence: &str) -> (r: Vec<Bottle>)
        requires
            forall|i: int|
                0 <= i < words(sequence@).len() ==> hex_word_ok(#[trigger] words(sequence@)[i]),
        ensures
            state_v(r@) == words(sequence@).map_values(|w: Seq<char>| hex_bottle(w)),
    {
        let chars = str_to_chars(sequence);
        let tokens = split_words(&chars);
        let ghost ws = words(sequence@);
        let mut out: Vec<Bottle> = Vec::new();
        let mut i: usize = 0;
        while i < tokens.len()
            invariant
                i <= tokens@.len(),
                ws == words(sequence@),
                char_vecs_v(tokens@) == ws,
                forall|k: int| 0 <= k < ws.len() ==> hex_word_ok(#[trigger] ws[k]),
                out@.len() == i,
                forall|k: int| 0 <= k < i ==> (#[trigger] out@[k])@ == hex_bottle(ws[k]),
            decreases tokens@.len() - i,
        {
            proof {
                assert(ws[i as int] == tokens@[i as int]@);
            }
            out.push(parse_hex_word(&tokens[i]));
            i = i + 1;
        }
        proof {
            assert(state_v(out@) =~= ws.map_values(|w: Seq<char>| hex_bottle(w)));
        }
        out
    }

    /// The bottles a text in letters stands for.
    pub fn parse_bottles_sequence_old_format(sequence: &str) -> (r: Vec<Bottle>)
        requires
            forall|i: int|
                0 <= i < words(sequence@).len() ==> letter_word_ok(#[trigger] words(sequence@)[i]),
        ensures
            state_v(r@) == words(sequence@).map_values(|w: Seq<char>| letter_bottle(w)),
    {
        let chars = str_to_chars(sequence);
        let tokens = split_words(&chars);
        let ghost ws = words(sequence@);
        let mut out: Vec<Bottle> = Vec::new();
        let mut i: usize = 0;
        while i < tokens.len()
            invariant
                i <= tokens@.len(),
                ws == words(sequence@),
                char_vecs_v(tokens@) == ws,
                forall|k: int| 0 <= k < ws.len() ==> letter_word_ok(#[trigger] ws[k]),
                out@.len() == i,
                forall|k: int| 0 <= k < i ==> (#[trigger] out@[k])@ == letter_bottle(ws[k]),
            decreases tokens@.len() - i,
        {
            proof {
                assert(ws[i as int] == tokens@[i as int]@);
            }
            out.push(parse_letter_word(&tokens[i]));
            i = i + 1;
        }
        proof {
            assert(state_v(out@) =~= ws.map_values(|w: Seq<char>| letter_bottle(w)));
        }
        out
    }

    /// Whether two lists of bottles hold the same colours, bottle by bottle.
    pub fn are_bottles_equal(a: &Vec<Bottle>, expected: &Vec<Bottle>) -> (r: bool)
        ensures
            r == (a@.len() == expected@.len() && forall|i: int|
                0 <= i < a@.len() ==> colors_of((#[trigger] a@[i])@.0) == colors_of(
                    expected@[i]@.0,
                )),
    {
        if a.len() != expected.len() {
            return false;
        }
        let mut i: usize = 0;
        while i < a.len()
            invariant
                i <= a@.len(),
                a@.len() == expected@.len(),
                forall|k: int| 0 <= k < i ==> colors_of((#[trigger] a@[k])@.0) == colors_of(
                    expected@[k]@.0,
                ),
            decreases a@.len() - i,
        {
            let x = a[i].get_fills();
            let y = expected[i].get_fills();
            if !same_colors(&x, &y) {
                return false;
            }
            i = i + 1;
        }
        true
    }
}

fn same_colors(a: &Vec<BottleColor>, b: &Vec<BottleColor>) -> (r: bool)
    ensures
        r == (a@ == b@),
{
    if a.len() != b.len() {
        return false;
    }
    let mut i: usize = 0;
    while i < a.len()
        invariant
            i <= a@.len(),
            a@.len() == b@.len(),
            forall|k: int| 0 <= k < i ==> a@[k] == b@[k],
        decreases a@.len() - i,
    {
        if !(a[i] == b[i]) {
            return false;
        }
        i = i + 1;
    }
    proof {
        assert(a@ =~= b@);
    }
    true
}

/// The letter of a colour; `?` for a mystery layer and for colours that no
/// letter names.
pub fn color_to_char(color: BottleColor) -> (r: char)
    ensures
        r == char_of(color),
{
    match color {
        BottleColor::Fill(0x20, 0xdf, 0xfb) => 'Y',
        BottleColor::Fill(0x24, 0x1a, 0xdf) => 'R',
        BottleColor::Fill(0x1e, 0xde, 0x46) => 'G',
        BottleColor::Fill(0x33, 0xed, 0xa3) => 'g',
        BottleColor::Fill(0xfe, 0xf8, 0x2c) => 'L',
        BottleColor::Fill(0xfb, 0xb7, 0x52) => 'M',
        BottleColor::Fill(0xf9, 0x4a, 0x19) => 'B',
        BottleColor::Fill(0x8e, 0x4a, 0x43) => 'D',
        BottleColor::Fill(0xd9, 0x00, 0x8c) => 'P',
        BottleColor::Fill(0xcc, 0x12, 0xd2) => 'W',
        BottleColor::Fill(0x1c, 0x7c, 0xf3) => 'O',
        _ => '?',
    }
}

/// The word of a bottle in letters: four slots from the top down, `E` for a
/// slot above the bottle's layers; layers beyond the fourth are left out.
pub open spec fn bottle_word(cs: Seq<BottleColor>) -> Seq<char> {
    Seq::new(
        4,
        |k: int|
            {
                let slot = 3 - k;
                if slot >= cs.len() {
                    'E'
                } else {
                    char_of(cs[slot])
                }
            },
    )
}

/// The words of the bottles, separated by single spaces.
pub open spec fn sequence_text(s: Seq<BottleView>) -> Seq<char>
    decreases s.len(),
{
    if s.len() == 0 {
        Seq::empty()
    } else if s.len() == 1 {
        bottle_word(colors_of(s[0].0))
    } else {
        sequence_text(s.drop_last()) + seq![' '] + bottle_word(colors_of(s.last().0))
    }
}

fn bottle_to_string(bottle: &Bottle, out: &mut String)
    ensures
        final(out)@ == old(out)@ + bottle_word(colors_of(bottle@.0)),
{
    let fills = bottle.get_fills();
    let mut k: usize = 0;
    while k < 4
        invariant
            k <= 4,
            fills@ == colors_of(bottle@.0),
            out@ == old(out)@ + bottle_word(fills@).subrange(0, k as int),
        decreases 4 - k,
    {
        let slot = 3 - k;
        let c = if slot >= fills.len() {
            'E'
        } else {
            color_to_char(fills[slot])
        };
        push_char(out, c);
        proof {
            assert(out@ =~= old(out)@ + bottle_word(fills@).subrange(0, k + 1));
        }
        k = k + 1;
    }
    proof {
        assert(bottle_word(fills@).subrange(0, 4) =~= bottle_word(fills@));
    }
}

/// The bottles written in letters, separated by single spaces.
pub fn bottles_to_sequence(bottles: &Vec<Bottle>) -> (r: String)
    ensures
        r@ == sequence_text(state_v(bottles@)),
{
    let ghost s = state_v(bottles@);
    let mut out = String::new();
    let mut i: usize = 0;
    proof {
        assert(out@ =~= sequence_text(s.subrange(0, 0)));
    }
    while i < bottles.len()
        invariant
            i <= bottles@.len(),
            s == state_v(bottles@),
            out@ == sequence_text(s.subrange(0, i as int)),
        decreases bottles@.len() - i,
    {
        proof {
            assert(s.subrange(0, i + 1).drop_last() =~= s.subrange(0, i as int));
            assert(s[i as int] == bottles@[i as int]@);
        }
        if i > 0 {
            push_char(&mut out, ' ');
        }
        bottle_to_string(&bottles[i], &mut out);
        proof {
            if i == 0 {
                assert(out@ =~= sequence_text(s.subrange(0, i + 1)));
            } else {
                assert(out@ =~= sequence_text(s.subrange(0, i + 1)));
            }
        }
        i = i + 1;
    }
    proof {
        assert(s.subrange(0, s.len() as int) =~= s);
    }
    out
}

/// A colour that has a letter: one of the ten named colours, or `Mystery`.
pub open spec fn has_letter(c: BottleColor) -> bool {
    spec_palette().contains(c) || c == BottleColor::Mystery
}

/// A bottle that the letter notation writes without loss: at most four
/// layers, each of a colour with a letter and marked as a mystery layer
/// exactly when it is one, no hidden requirement and no click position.
pub open spec fn writable(v: BottleView) -> bool {
    &&& v.0.len() <= 4
    &&& v.0 == layers_from_colors(colors_of(v.0))
    &&& forall|j: int| 0 <= j < v.0.len() ==> has_letter(#[trigger] v.0[j].0)
    &&& v.1 == HiddenRequirement::NoRequirement
    &&& v.2 is None
}

proof fn lemma_letter_of_char(c: BottleColor)
    requires
        has_letter(c),
    ensures
        letter_color(char_of(c)) == Some(c),
        char_of(c) != 'E',
        char_of(c) != '#',
        char_of(c) != '!',
        !is_space(char_of(c)),
{
    if spec_palette().contains(c) {
        let k = choose|k: int| 0 <= k < spec_palette().len() && spec_palette()[k] == c;
        assert(0 <= k < 10);
    }
}

proof fn lemma_bottle_word(cs: Seq<BottleColor>)
    requires
        cs.len() <= 4,
        forall|j: int| 0 <= j < cs.len() ==> has_letter(#[trigger] cs[j]),
    ensures
        bottle_word(cs).len() == 4,
        forall|k: int|
            0 <= k < 4 ==> !is_space(#[trigger] bottle_word(cs)[k]) && bottle_word(cs)[k] != '#',
        bottle_word(cs)[0] != '!',
        letter_fills_ok(bottle_word(cs)),
        letter_fills(bottle_word(cs)) == cs,
{
    let w = bottle_word(cs);
    assert forall|j: int| 0 <= j < cs.len() implies letter_color(char_of(#[trigger] cs[j]))
        == Some(cs[j]) && char_of(cs[j]) != 'E' && char_of(cs[j]) != '#' && char_of(cs[j]) != '!'
        && !is_space(char_of(cs[j])) by {
        lemma_letter_of_char(cs[j]);
    }
    let pred = |c: char| c != 'E';
    let f = |c: char| letter_color(c)->0;
    reveal_with_fuel(Seq::filter, 5);
    assert(w =~= w.subrange(0, 3).push(w[3]));
    assert(w.subrange(0, 3) =~= w.subrange(0, 2).push(w[2]));
    assert(w.subrange(0, 2) =~= w.subrange(0, 1).push(w[1]));
    assert(w.subrange(0, 1) =~= seq![w[0]]);
    assert(seq![w[0]] =~= Seq::<char>::empty().push(w[0]));
    if cs.len() == 0 {
        assert(w.filter(pred) =~= Seq::<char>::empty());
    } else if cs.len() == 1 {
        assert(w.filter(pred) =~= seq![char_of(cs[0])]);
    } else if cs.len() == 2 {
        assert(w.filter(pred) =~= seq![char_of(cs[1]), char_of(cs[0])]);
    } else if cs.len() == 3 {
        assert(w.filter(pred) =~= seq![char_of(cs[2]), char_of(cs[1]), char_of(cs[0])]);
    } else {
        assert(w.filter(pred) =~= seq![
            char_of(cs[3]),
            char_of(cs[2]),
            char_of(cs[1]),
            char_of(cs[0]),
        ]);
    }
    assert(w.filter(pred).map_values(f).reverse() =~= cs);
}

proof fn lemma_words_after_space(p: Seq<char>, w: Seq<char>)
    requires
        p.len() == 0 || is_space(p.last()),
        w.len() > 0,
        forall|k: int| 0 <= k < w.len() ==> !is_space(#[trigger] w[k]),
    ensures
        words(p + w) == words(p).push(w),
    decreases w.len(),
{
    let t = p + w;
    if w.len() == 1 {
        assert(t.drop_last() =~= p);
        assert(t.last() == w[0]);
        assert(seq![w[0]] =~= w);
    } else {
        let w1 = w.drop_last();
        assert(forall|k: int| 0 <= k < w1.len() ==> w1[k] == w[k]);
        lemma_words_after_space(p, w1);
        assert(t.drop_last() =~= p + w1);
        assert(t[t.len() - 2] == w1.last());
        assert(w1.push(w.last()) =~= w);
        assert(words(p).push(w1).update(words(p).len() as int, w1.push(w.last())) =~= words(p).push(w));
    }
}

proof fn lemma_words_of_text(s: Seq<BottleView>)
    requires
        forall|i: int| 0 <= i < s.len() ==> writable(#[trigger] s[i]),
    ensures
        words(sequence_text(s)) == s.map_values(|v: BottleView| bottle_word(colors_of(v.0))),
        forall|k: int| 0 <= k < sequence_text(s).len() ==> #[trigger] sequence_text(s)[k] != '#',
        sequence_text(s).len() == 0 || !is_space(sequence_text(s).last()),
    decreases s.len(),
{
    let target = s.map_values(|v: BottleView| bottle_word(colors_of(v.0)));
    if s.len() == 0 {
        assert(target =~= Seq::<Seq<char>>::empty());
    } else {
        let v = s.last();
        assert(writable(s[s.len() - 1]));
        let cs = colors_of(v.0);
        assert forall|j: int| 0 <= j < cs.len() implies has_letter(#[trigger] cs[j]) by {
            assert(has_letter(v.0[j].0));
        }
        lemma_bottle_word(cs);
        let w = bottle_word(cs);
        if s.len() == 1 {
            lemma_words_after_space(Seq::<char>::empty(), w);
            assert(Seq::<char>::empty() + w =~= w);
            assert(target =~= seq![w]);
            assert(words(Seq::<char>::empty()) =~= Seq::<Seq<char>>::empty());
        } else {
            let prev = s.drop_last();
            assert forall|i: int| 0 <= i < prev.len() implies writable(#[trigger] prev[i]) by {
                assert(prev[i] == s[i]);
            }
            lemma_words_of_text(prev);
            let t0 = sequence_text(prev);
            let p = t0 + seq![' '];
            assert(p.drop_last() =~= t0);
            assert(p.last() == ' ');
            assert(words(p) == words(t0));
            lemma_words_after_space(p, w);
            assert(sequence_text(s) == p + w);
            assert(target =~= prev.map_values(|v: BottleView| bottle_word(colors_of(v.0))).push(w));
            assert forall|k: int| 0 <= k < sequence_text(s).len() implies #[trigger] sequence_text(
                s,
            )[k] != '#' by {
                if k < t0.len() {
                    assert(sequence_text(s)[k] == t0[k]);
                } else if k > t0.len() {
                    assert(sequence_text(s)[k] == w[k - t0.len() - 1]);
                }
            }
        }
    }
}

/// What the letter notation writes of bottles that it can write, the parser
/// reads back as the same bottles.
pub proof fn lemma_letters_read_back(s: Seq<BottleView>)
    requires
        forall|i: int| 0 <= i < s.len() ==> writable(#[trigger] s[i]),
    ensures
        level_text_ok(sequence_text(s)),
        parse_level(sequence_text(s)) == s,
{
    lemma_words_of_text(s);
    let text = sequence_text(s);
    let ws = words(text);
    assert(!text.contains('#'));
    assert forall|i: int| 0 <= i < ws.len() implies letter_word_ok(#[trigger] ws[i]) && letter_bottle(ws[i]) == s[i] by {
        assert(writable(s[i]));
        let cs = colors_of(s[i].0);
        assert forall|j: int| 0 <= j < cs.len() implies has_letter(#[trigger] cs[j]) by {
            assert(has_letter(s[i].0[j].0));
        }
        lemma_bottle_word(cs);
        assert(ws[i] == bottle_word(cs));
    }
    assert(parse_level(text) =~= s);
}


fn hex_field_ok(a: char, b: char) -> (r: bool)
    ensures
        r == hex_field(a, b) is Some,
{
    let da = hex_digit_exec(a);
    let db = hex_digit_exec(b);
    (da.is_some() && db.is_some()) || (a == '+' && db.is_some())
}

/// Whether `#` followed by the characters of `p` reads as a hex colour.
fn hex_part_ok(p: &Vec<char>) -> (r: bool)
    ensures
        r == is_hex_color(seq!['#'] + p@),
{
    let ghost s = seq!['#'] + p@;
    if p.len() < 6 {
        return false;
    }
    proof {
        assert(s[1] == p@[0] && s[2] == p@[1] && s[3] == p@[2]);
        assert(s[4] == p@[3] && s[5] == p@[4] && s[6] == p@[5]);
        assert(s[0] == '#');
    }
    hex_field_ok(p[0], p[1]) && hex_field_ok(p[2], p[3]) && hex_field_ok(p[4], p[5])
}

/// Whether the characters of `t` read as a hex colour.
fn hex_chars_ok(t: &Vec<char>) -> (r: bool)
    ensures
        r == is_hex_color(t@),
{
    if t.len() < 7 {
        return false;
    }
    (t[0] as u32) < 128 && hex_field_ok(t[1], t[2]) && hex_field_ok(t[3], t[4]) && hex_field_ok(
        t[5],
        t[6],
    )
}

fn hex_fills_check(t: &Vec<char>) -> (r: bool)
    ensures
        r == hex_fills_ok(t@),
{
    let parts = split_on_hash(t);
    let ghost ps = split_hash(t@);
    let mut i: usize = 0;
    while i < parts.len()
        invariant
            i <= parts@.len(),
            ps == split_hash(t@),
            char_vecs_v(parts@) == ps,
            forall|k: int|
                0 <= k < i && !blank_part(#[trigger] ps[k]) ==> is_hex_color(seq!['#'] + ps[k]),
        decreases parts@.len() - i,
    {
        proof {
            assert(ps[i as int] == parts@[i as int]@);
        }
        if !is_blank(&parts[i]) && !hex_part_ok(&parts[i]) {
            return false;
        }
        i = i + 1;
    }
    true
}

/// A word without its leading `!` characters.
fn trim_bangs_chars(t: &Vec<char>) -> (r: Vec<char>)
    ensures
        r@ == trim_bangs(t@),
{
    let mut k: usize = 0;
    proof {
        assert(t@.subrange(0, t@.len() as int) =~= t@);
    }
    while k < t.len() && t[k] == '!'
        invariant
            k <= t@.len(),
            trim_bangs(t@) == trim_bangs(t@.subrange(k as int, t@.len() as int)),
        decreases t@.len() - k,
    {
        proof {
            let rest = t@.subrange(k as int, t@.len() as int);
            assert(rest.drop_first() =~= t@.subrange(k + 1, t@.len() as int));
        }
        k = k + 1;
    }
    let r = sub_chars(t, k, t.len());
    proof {
        let rest = t@.subrange(k as int, t@.len() as int);
        assert(!(rest.len() > 0 && rest[0] == '!'));
    }
    r
}

fn letter_fills_check(t: &Vec<char>) -> (r: bool)
    ensures
        r == letter_fills_ok(t@),
{
    let mut i: usize = 0;
    while i < t.len()
        invariant
            i <= t@.len(),
            forall|k: int| 0 <= k < i ==> t@[k] == 'E' || (#[trigger] letter_color(t@[k])) is Some,
        decreases t@.len() - i,
    {
        if t[i] != 'E' && bottle_color_from_char(t[i]).is_none() {
            assert(!(t@[i as int] == 'E' || letter_color(t@[i as int]) is Some));
            return false;
        }
        i = i + 1;
    }
    true
}

fn letter_word_check(t: &Vec<char>) -> (r: bool)
    ensures
        r == letter_word_ok(t@),
{
    if t.len() > 0 && t[0] == '!' {
        match find_comma(t) {
            Some(k) => {
                let req = sub_chars(t, 0, k);
                let fills = sub_chars(t, k + 1, t.len());
                req.len() >= 2 && bottle_color_from_char(req[1]).is_some() && letter_fills_check(
                    &fills,
                )
            },
            None => t.len() >= 2 && bottle_color_from_char(t[1]).is_some(),
        }
    } else {
        letter_fills_check(t)
    }
}

fn hex_word_check(t: &Vec<char>) -> (r: bool)
    ensures
        r == hex_word_ok(t@),
{
    if t.len() > 0 && t[0] == '!' {
        match find_comma(t) {
            Some(k) => {
                let req = sub_chars(t, 0, k);
                let fills = sub_chars(t, k + 1, t.len());
                hex_chars_ok(&trim_bangs_chars(&req)) && hex_fills_check(&fills)
            },
            None => {
                proof {
                    assert(requirement_part(t@) == t@);
                }
                hex_chars_ok(&trim_bangs_chars(t))
            },
        }
    } else {
        hex_fills_check(t)
    }
}

/// Whether every word of `text` stands for a bottle, so that
/// `TestUtils::parse_bottles_sequence` reads it.
pub fn is_level_text(text: &str) -> (r: bool)
    ensures
        r == level_text_ok(text@),
{
    let chars = str_to_chars(text);
    let ws = split_words(&chars);
    let ghost w = words(text@);
    let hex = contains_hash(&chars);
    let mut i: usize = 0;
    while i < ws.len()
        invariant
            i <= ws@.len(),
            w == words(text@),
            char_vecs_v(ws@) == w,
            hex == uses_hex(text@),
            hex ==> forall|k: int| 0 <= k < i ==> hex_word_ok(#[trigger] w[k]),
            !hex ==> forall|k: int| 0 <= k < i ==> letter_word_ok(#[trigger] w[k]),
        decreases ws@.len() - i,
    {
        proof {
            assert(w[i as int] == ws@[i as int]@);
        }
        let ok = if hex {
            hex_word_check(&ws[i])
        } else {
            letter_word_check(&ws[i])
        };
        if !ok {
            return false;
        }
        i = i + 1;
    }
    true
}

} // verus!
