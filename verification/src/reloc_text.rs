//! The relocation text format: one relocation per line, space-separated
//! `key:value` attributes in any order, and the exact serialization
//! `from:0x<8 hex> kind:<token> to:0x<8 hex> module:<target>`.

use vstd::prelude::*;
use vstd::string::StrSliceExecFns;
use crate::text::{
    all_digits, chars_eq, digits_val, hex8, dec_seq, parse_digits, push_all, push_dec_u16,
    push_hex8, split_first, split_first_exec, split_sep, split_sep_exec, split_ws, split_ws_exec,
    subvec,
};
use crate::relocation::{
    find_from, insert_pos, module_valid, set_entry, sorted_strict, ModuleView, Relocation,
    RelocationKind, RelocationModule, RelocationView, Relocations,
};

verus! {

/// Where in a file a line came from, for error reports.
pub struct ParseContext {
    pub file_path: String,
    pub row: usize,
}

/// A malformed line, by its row in the file.
#[derive(Clone, Copy, Debug, PartialEq, Eq, Structural)]
pub struct ParseError {
    pub row: usize,
}

/// The characters of the `from` key.
pub open spec fn from_key() -> Seq<char> {
    seq!['f', 'r', 'o', 'm']
}

/// The characters of the `to` key.
pub open spec fn to_key() -> Seq<char> {
    seq!['t', 'o']
}

/// The characters of the `kind` key.
pub open spec fn kind_key() -> Seq<char> {
    seq!['k', 'i', 'n', 'd']
}

/// The characters of the `module` key.
pub open spec fn module_key() -> Seq<char> {
    seq!['m', 'o', 'd', 'u', 'l', 'e']
}

/// The token of a relocation kind.
pub open spec fn kind_token(k: RelocationKind) -> Seq<char> {
    match k {
        RelocationKind::ArmCall => seq!['a', 'r', 'm', '_', 'c', 'a', 'l', 'l'],
        RelocationKind::ThumbCall => seq!['t', 'h', 'u', 'm', 'b', '_', 'c', 'a', 'l', 'l'],
        RelocationKind::ArmCallThumb => seq![
            'a', 'r', 'm', '_', 'c', 'a', 'l', 'l', '_', 't', 'h', 'u', 'm', 'b',
        ],
        RelocationKind::ThumbCallArm => seq![
            't', 'h', 'u', 'm', 'b', '_', 'c', 'a', 'l', 'l', '_', 'a', 'r', 'm',
        ],
        RelocationKind::Load => seq!['l', 'o', 'a', 'd'],
    }
}

/// The token `none`.
pub open spec fn none_token() -> Seq<char> {
    seq!['n', 'o', 'n', 'e']
}

/// The token `main`.
pub open spec fn main_token() -> Seq<char> {
    seq!['m', 'a', 'i', 'n']
}

/// The token `itcm`.
pub open spec fn itcm_token() -> Seq<char> {
    seq!['i', 't', 'c', 'm']
}

/// The token `dtcm`.
pub open spec fn dtcm_token() -> Seq<char> {
    seq!['d', 't', 'c', 'm']
}

/// The token `overlay`.
pub open spec fn overlay_token() -> Seq<char> {
    seq!['o', 'v', 'e', 'r', 'l', 'a', 'y']
}

/// The token `overlays`.
pub open spec fn overlays_token() -> Seq<char> {
    seq!['o', 'v', 'e', 'r', 'l', 'a', 'y', 's']
}

/// The decimal renderings of a list of overlay ids.
pub open spec fn dec_tokens(ids: Seq<u16>) -> Seq<Seq<char>> {
    Seq::new(ids.len(), |k: int| dec_seq(ids[k] as int))
}

/// The characters of a module target.
pub open spec fn module_token(m: ModuleView) -> Seq<char> {
    match m {
        ModuleView::NoTarget => none_token(),
        ModuleView::Main => main_token(),
        ModuleView::Itcm => itcm_token(),
        ModuleView::Dtcm => dtcm_token(),
        ModuleView::Overlay(id) => overlay_token() + seq!['('] + dec_seq(id as int) + seq![')'],
        ModuleView::Overlays(ids) => overlays_token() + seq!['('] + crate::text::join_with(
            dec_tokens(ids),
            ',',
        ) + seq![')'],
    }
}

/// The `from` word of a line.
pub open spec fn from_word(r: RelocationView) -> Seq<char> {
    from_key() + seq![':', '0', 'x'] + hex8(r.from)
}

/// The `kind` word of a line.
pub open spec fn kind_word(r: RelocationView) -> Seq<char> {
    kind_key() + seq![':'] + kind_token(r.kind)
}

/// The `to` word of a line.
pub open spec fn to_word(r: RelocationView) -> Seq<char> {
    to_key() + seq![':', '0', 'x'] + hex8(r.to)
}

/// The `module` word of a line.
pub open spec fn module_word(r: RelocationView) -> Seq<char> {
    module_key() + seq![':'] + module_token(r.module)
}

/// The serialized line of one relocation, without the newline.
pub open spec fn line_of(r: RelocationView) -> Seq<char> {
    from_word(r) + seq![' '] + kind_word(r) + seq![' '] + to_word(r) + seq![' '] + module_word(r)
}

/// The serialized text of a whole table: each entry's line, each followed
/// by a newline.
pub open spec fn text_of(s: Seq<RelocationView>) -> Seq<char>
    decreases s.len(),
{
    if s.len() == 0 {
        Seq::empty()
    } else {
        line_of(s.first()) + seq!['\n'] + text_of(s.drop_first())
    }
}

/// A hexadecimal address value: `0x` then one to eight hex digits.
pub open spec fn parse_hex_u32_spec(s: Seq<char>) -> Option<u32> {
    if s.len() >= 3 && s[0] == '0' && s[1] == 'x' && all_digits(s.subrange(2, s.len() as int), 16)
        && s.len() <= 10 {
        Some(digits_val(s.subrange(2, s.len() as int), 16) as u32)
    } else {
        None
    }
}

/// An overlay id: one to five decimal digits whose value fits a `u16`.
pub open spec fn parse_dec_u16_spec(s: Seq<char>) -> Option<u16> {
    if 1 <= s.len() <= 5 && all_digits(s, 10) && digits_val(s, 10) <= 0xffff {
        Some(digits_val(s, 10) as u16)
    } else {
        None
    }
}

/// A relocation kind token.
pub open spec fn parse_kind_spec(s: Seq<char>) -> Option<RelocationKind> {
    if s == kind_token(RelocationKind::ArmCall) {
        Some(RelocationKind::ArmCall)
    } else if s == kind_token(RelocationKind::ThumbCall) {
        Some(RelocationKind::ThumbCall)
    } else if s == kind_token(RelocationKind::ArmCallThumb) {
        Some(RelocationKind::ArmCallThumb)
    } else if s == kind_token(RelocationKind::ThumbCallArm) {
        Some(RelocationKind::ThumbCallArm)
    } else if s == kind_token(RelocationKind::Load) {
        Some(RelocationKind::Load)
    } else {
        None
    }
}

/// A comma-separated list of overlay ids.
pub open spec fn parse_ids_spec(ps: Seq<Seq<char>>) -> Option<Seq<u16>>
    decreases ps.len(),
{
    if ps.len() == 0 {
        Some(Seq::empty())
    } else {
        match parse_dec_u16_spec(ps.first()) {
            None => None,
            Some(id) => match parse_ids_spec(ps.drop_first()) {
                None => None,
                Some(rest) => Some(seq![id] + rest),
            },
        }
    }
}

/// The parenthesized option part of a module value: what stands between
/// the first `(` and a trailing `)`.
pub open spec fn module_value_options(s: Seq<char>) -> (Seq<char>, Seq<char>) {
    match split_first(s, '(') {
        None => (s, Seq::empty()),
        Some((value, raw)) => (
            value,
            if raw.len() > 0 && raw.last() == ')' {
                raw.drop_last()
            } else {
                raw
            },
        ),
    }
}

/// A module target value: a module name, or `overlay(id)`, or
/// `overlays(id,id,...)` with at least two ids.
pub open spec fn parse_module_spec(s: Seq<char>) -> Option<ModuleView> {
    let (value, options) = module_value_options(s);
    if value == none_token() {
        if options.len() == 0 {
            Some(ModuleView::NoTarget)
        } else {
            None
        }
    } else if value == overlay_token() {
        match parse_dec_u16_spec(options) {
            Some(id) => Some(ModuleView::Overlay(id)),
            None => None,
        }
    } else if value == overlays_token() {
        match parse_ids_spec(split_sep(options, ',')) {
            Some(ids) => if ids.len() >= 2 {
                Some(ModuleView::Overlays(ids))
            } else {
                None
            },
            None => None,
        }
    } else if value == main_token() {
        if options.len() == 0 {
            Some(ModuleView::Main)
        } else {
            None
        }
    } else if value == itcm_token() {
        if options.len() == 0 {
            Some(ModuleView::Itcm)
        } else {
            None
        }
    } else if value == dtcm_token() {
        if options.len() == 0 {
            Some(ModuleView::Dtcm)
        } else {
            None
        }
    } else {
        None
    }
}

/// The attributes gathered while reading a line, each key's latest value.
pub struct AttrState {
    pub from: Option<u32>,
    pub to: Option<u32>,
    pub kind: Option<RelocationKind>,
    pub module: Option<ModuleView>,
}

/// One word applied to the gathered attributes: it must be `key:value`
/// with a known key and a well-formed value.
pub open spec fn apply_attr(st: AttrState, w: Seq<char>) -> Option<AttrState> {
    match split_first(w, ':') {
        None => None,
        Some((key, value)) => if key == from_key() {
            match parse_hex_u32_spec(value) {
                Some(a) => Some(AttrState { from: Some(a), ..st }),
                None => None,
            }
        } else if key == to_key() {
            match parse_hex_u32_spec(value) {
                Some(a) => Some(AttrState { to: Some(a), ..st }),
                None => None,
            }
        } else if key == kind_key() {
            match parse_kind_spec(value) {
                Some(k) => Some(AttrState { kind: Some(k), ..st }),
                None => None,
            }
        } else if key == module_key() {
            match parse_module_spec(value) {
                Some(m) => Some(AttrState { module: Some(m), ..st }),
                None => None,
            }
        } else {
            None
        },
    }
}

/// All words of a line applied in order, starting from no attributes.
pub open spec fn parse_attrs(ws: Seq<Seq<char>>) -> Option<AttrState>
    decreases ws.len(),
{
    if ws.len() == 0 {
        Some(AttrState { from: None, to: None, kind: None, module: None })
    } else {
        match parse_attrs(ws.drop_last()) {
            None => None,
            Some(st) => apply_attr(st, ws.last()),
        }
    }
}

/// One line parsed: a blank line is skipped, a line whose words are all
/// well-formed attributes and that carries all four keys is a relocation,
/// anything else is an error.
pub open spec fn parse_line_spec(s: Seq<char>) -> Result<Option<RelocationView>, ()> {
    let ws = split_ws(s);
    if ws.len() == 0 {
        Ok(None)
    } else {
        match parse_attrs(ws) {
            None => Err(()),
            Some(st) => match (st.from, st.to, st.kind, st.module) {
                (Some(from), Some(to), Some(kind), Some(module)) => Ok(
                    Some(RelocationView { from, to, kind, module }),
                ),
                _ => Err(()),
            },
        }
    }
}

/// A whole text parsed, line by line, each parsed relocation replacing any
/// earlier one with the same source address.
pub open spec fn parse_lines(acc: Seq<RelocationView>, lines: Seq<Seq<char>>) -> Result<
    Seq<RelocationView>,
    (),
>
    decreases lines.len(),
{
    if lines.len() == 0 {
        Ok(acc)
    } else {
        match parse_line_spec(lines.first()) {
            Err(e) => Err(e),
            Ok(None) => parse_lines(acc, lines.drop_first()),
            Ok(Some(r)) => parse_lines(set_entry(acc, r), lines.drop_first()),
        }
    }
}

/// Concatenation keeps freedom from a character.
proof fn lemma_free_concat(a: Seq<char>, b: Seq<char>, c: char)
    requires
        crate::text::free_of(a, c),
        crate::text::free_of(b, c),
    ensures
        crate::text::free_of(a + b, c),
{
    assert forall|j: int| 0 <= j < (a + b).len() implies (a + b)[j] != c by {
        if j < a.len() {
            assert((a + b)[j] == a[j]);
        } else {
            assert((a + b)[j] == b[j - a.len()]);
        }
    }
}

/// Digits are digits: no digit character is whitespace, a newline, a
/// colon, a comma or a parenthesis.
proof fn lemma_digits_are_plain(s: Seq<char>, base: int)
    requires
        2 <= base <= 16,
        all_digits(s, base),
    ensures
        crate::text::word_ok(s) || s.len() == 0,
        crate::text::free_of(s, '\n'),
        crate::text::free_of(s, ':'),
        crate::text::free_of(s, ','),
        crate::text::free_of(s, '('),
        crate::text::free_of(s, ')'),
{
    assert(crate::text::digit_val(' ') == -1);
    assert(crate::text::digit_val('\t') == -1);
    assert(crate::text::digit_val('\n') == -1);
    assert(crate::text::digit_val(':') == -1);
    assert(crate::text::digit_val(',') == -1);
    assert(crate::text::digit_val('(') == -1);
    assert(crate::text::digit_val(')') == -1);
    assert forall|j: int| 0 <= j < s.len() implies !crate::text::is_space_char(#[trigger] s[j])
        && s[j] != '\n' && s[j] != ':' && s[j] != ',' && s[j] != '(' && s[j] != ')' by {
        assert(crate::text::digit_val(s[j]) >= 0);
    }
}

/// A hexadecimal address round-trips: the rendered `0x` form parses back
/// to the value.
proof fn lemma_hex_round_trip(v: u32)
    ensures
        parse_hex_u32_spec(seq!['0', 'x'] + hex8(v)) == Some(v),
{
    crate::text::lemma_pow_constants();
    crate::text::lemma_num_seq_val(v as int, 8, 16);
    let s = seq!['0', 'x'] + hex8(v);
    assert(s.len() == 10);
    assert(s[0] == '0' && s[1] == 'x');
    assert(s.subrange(2, s.len() as int) =~= hex8(v));
}

/// A decimal id round-trips: the rendered digits parse back to the value.
proof fn lemma_dec_round_trip(id: u16)
    ensures
        parse_dec_u16_spec(dec_seq(id as int)) == Some(id),
{
    crate::text::lemma_pow_constants();
    crate::text::lemma_dec_seq_val(id as int);
    crate::text::lemma_dec_seq_len(id as int, 5);
}

/// A kind token round-trips.
proof fn lemma_kind_round_trip(k: RelocationKind)
    ensures
        parse_kind_spec(kind_token(k)) == Some(k),
{
    let act = kind_token(RelocationKind::ArmCallThumb);
    let tca = kind_token(RelocationKind::ThumbCallArm);
    assert(act[0] == 'a');
    assert(tca[0] == 't');
    assert(act != tca);
    match k {
        RelocationKind::ArmCall => {
            assert(kind_token(k).len() == 8);
        },
        RelocationKind::ThumbCall => {
            assert(kind_token(k).len() == 10);
        },
        RelocationKind::ArmCallThumb => {
            assert(kind_token(k).len() == 14);
        },
        RelocationKind::ThumbCallArm => {
            assert(kind_token(k).len() == 14);
            assert(kind_token(k) == tca);
        },
        RelocationKind::Load => {
            assert(kind_token(k).len() == 4);
        },
    }
}

/// The id list of an ambiguous target round-trips.
proof fn lemma_ids_round_trip(ids: Seq<u16>)
    ensures
        parse_ids_spec(dec_tokens(ids)) == Some(ids),
    decreases ids.len(),
{
    if ids.len() == 0 {
        assert(dec_tokens(ids) =~= Seq::<Seq<char>>::empty());
        assert(Seq::<u16>::empty() =~= ids);
    } else {
        lemma_ids_round_trip(ids.drop_first());
        lemma_dec_round_trip(ids[0]);
        let ps = dec_tokens(ids);
        assert(ps.first() == dec_seq(ids[0] as int));
        assert(ps.drop_first() =~= dec_tokens(ids.drop_first()));
        assert(seq![ids[0]] + ids.drop_first() =~= ids);
    }
}

/// Every id rendering is free of commas and nonempty.
proof fn lemma_dec_tokens_plain(ids: Seq<u16>)
    ensures
        forall|i: int|
            0 <= i < dec_tokens(ids).len() ==> crate::text::free_of(
                #[trigger] dec_tokens(ids)[i],
                ',',
            ),
        forall|i: int| 0 <= i < dec_tokens(ids).len() ==> (#[trigger] dec_tokens(ids)[i]).len()
            > 0,
        forall|i: int|
            0 <= i < dec_tokens(ids).len() ==> all_digits(#[trigger] dec_tokens(ids)[i], 10),
{
    assert forall|i: int|
        0 <= i < dec_tokens(ids).len() implies crate::text::free_of(
        #[trigger] dec_tokens(ids)[i],
        ',',
    ) && dec_tokens(ids)[i].len() > 0 && all_digits(dec_tokens(ids)[i], 10) by {
        crate::text::lemma_dec_seq_val(ids[i] as int);
        lemma_digits_are_plain(dec_tokens(ids)[i], 10);
    }
}

/// A module token is a word free of newlines, and it round-trips.
proof fn lemma_module_round_trip(m: ModuleView)
    requires
        crate::relocation::module_valid(m),
    ensures
        parse_module_spec(module_token(m)) == Some(m),
        crate::text::word_ok(module_token(m)),
        crate::text::free_of(module_token(m), '\n'),
        crate::text::free_of(module_token(m), ':'),
{
    assert(none_token()[0] == 'n');
    assert(main_token()[0] == 'm');
    assert(itcm_token()[0] == 'i');
    assert(dtcm_token()[0] == 'd');
    match m {
        ModuleView::NoTarget => {
            crate::text::lemma_split_first_absent(none_token(), '(');
        },
        ModuleView::Main => {
            crate::text::lemma_split_first_absent(main_token(), '(');
        },
        ModuleView::Itcm => {
            crate::text::lemma_split_first_absent(itcm_token(), '(');
        },
        ModuleView::Dtcm => {
            crate::text::lemma_split_first_absent(dtcm_token(), '(');
        },
        ModuleView::Overlay(id) => {
            crate::text::lemma_dec_seq_val(id as int);
            lemma_digits_are_plain(dec_seq(id as int), 10);
            let tok = module_token(m);
            let tail = dec_seq(id as int) + seq![')'];
            assert(tok =~= overlay_token() + seq!['('] + tail);
            crate::text::lemma_split_first_glue(overlay_token(), tail, '(');
            assert(split_first(tok, '(') == Some((overlay_token(), tail)));
            assert(tail.last() == ')');
            assert(tail.drop_last() =~= dec_seq(id as int));
            assert(module_value_options(tok) == (overlay_token(), dec_seq(id as int)));
            lemma_dec_round_trip(id);
            lemma_free_concat(overlay_token() + seq!['('], tail, '\n');
            lemma_free_concat(overlay_token() + seq!['('], tail, ':');
            assert forall|j: int|
                0 <= j < tok.len() implies !crate::text::is_space_char(#[trigger] tok[j]) by {
                if j < 8 {
                } else if j < tok.len() - 1 {
                    assert(tok[j] == dec_seq(id as int)[j - 8]);
                    assert(crate::text::digit_val(tok[j]) >= 0);
                    assert(crate::text::digit_val(' ') == -1);
                    assert(crate::text::digit_val('\t') == -1);
                } else {
                    assert(tok[j] == ')');
                }
            }
        },
        ModuleView::Overlays(ids) => {
            let joined = crate::text::join_with(dec_tokens(ids), ',');
            let tail = joined + seq![')'];
            let tok = module_token(m);
            assert(tok =~= overlays_token() + seq!['('] + tail);
            lemma_dec_tokens_plain(ids);
            assert forall|i: int|
                0 <= i < dec_tokens(ids).len() implies crate::text::free_of(
                #[trigger] dec_tokens(ids)[i],
                '(',
            ) && crate::text::free_of(dec_tokens(ids)[i], ')') && crate::text::free_of(
                dec_tokens(ids)[i],
                '\n',
            ) && crate::text::free_of(dec_tokens(ids)[i], ':') && crate::text::word_ok(
                dec_tokens(ids)[i],
            ) by {
                lemma_digits_are_plain(dec_tokens(ids)[i], 10);
                crate::text::lemma_dec_seq_val(ids[i] as int);
            }
            lemma_join_plain(dec_tokens(ids), ',', '(');
            lemma_join_plain(dec_tokens(ids), ',', ')');
            lemma_join_plain(dec_tokens(ids), ',', '\n');
            lemma_join_plain(dec_tokens(ids), ',', ':');
            lemma_join_no_space(dec_tokens(ids), ',');
            crate::text::lemma_split_first_glue(overlays_token(), tail, '(');
            assert(split_first(tok, '(') == Some((overlays_token(), tail)));
            assert(tail.last() == ')');
            assert(tail.drop_last() =~= joined);
            assert(module_value_options(tok) == (overlays_token(), joined));
            crate::text::lemma_split_join_sep(dec_tokens(ids), ',');
            assert(split_sep(joined, ',') == dec_tokens(ids));
            lemma_ids_round_trip(ids);
            lemma_free_concat(overlays_token() + seq!['('], tail, '\n');
            lemma_free_concat(overlays_token() + seq!['('], tail, ':');
            assert forall|j: int|
                0 <= j < tok.len() implies !crate::text::is_space_char(#[trigger] tok[j]) by {
                if j < 9 {
                } else if j < tok.len() - 1 {
                    assert(tok[j] == joined[j - 9]);
                } else {
                    assert(tok[j] == ')');
                }
            }
        },
    }
}

/// Joining comma-free pieces with a separator that is not `c` keeps the
/// result free of `c` when every piece is.
proof fn lemma_join_plain(ps: Seq<Seq<char>>, sep: char, c: char)
    requires
        sep != c,
        forall|i: int| 0 <= i < ps.len() ==> crate::text::free_of(#[trigger] ps[i], c),
    ensures
        crate::text::free_of(crate::text::join_with(ps, sep), c),
    decreases ps.len(),
{
    if ps.len() == 0 {
    } else if ps.len() == 1 {
        assert(crate::text::join_with(ps, sep) == ps.first());
        assert(ps.first() == ps[0]);
    } else {
        assert(forall|i: int|
            0 <= i < ps.drop_first().len() ==> #[trigger] ps.drop_first()[i] == ps[i + 1]);
        lemma_join_plain(ps.drop_first(), sep, c);
        assert(ps.first() == ps[0]);
        lemma_free_concat(ps.first(), seq![sep], c);
        lemma_free_concat(
            ps.first() + seq![sep],
            crate::text::join_with(ps.drop_first(), sep),
            c,
        );
        assert(ps.first() + seq![sep] + crate::text::join_with(ps.drop_first(), sep)
            =~= (ps.first() + seq![sep]) + crate::text::join_with(ps.drop_first(), sep));
    }
}

/// Joining space-free pieces with a comma yields no whitespace.
proof fn lemma_join_no_space(ps: Seq<Seq<char>>, sep: char)
    requires
        !crate::text::is_space_char(sep),
        forall|i: int|
            0 <= i < ps.len() ==> forall|j: int|
                0 <= j < (#[trigger] ps[i]).len() ==> !crate::text::is_space_char(
                    #[trigger] ps[i][j],
                ),
    ensures
        forall|j: int|
            0 <= j < crate::text::join_with(ps, sep).len() ==> !crate::text::is_space_char(
                #[trigger] crate::text::join_with(ps, sep)[j],
            ),
    decreases ps.len(),
{
    if ps.len() == 0 {
    } else if ps.len() == 1 {
        assert(crate::text::join_with(ps, sep) == ps.first());
        assert(ps.first() == ps[0]);
    } else {
        assert(forall|i: int|
            0 <= i < ps.drop_first().len() ==> #[trigger] ps.drop_first()[i] == ps[i + 1]);
        lemma_join_no_space(ps.drop_first(), sep);
        assert(ps.first() == ps[0]);
        let a = ps.first() + seq![sep];
        let whole = ps.first() + seq![sep] + crate::text::join_with(ps.drop_first(), sep);
        assert forall|j: int|
            0 <= j < whole.len() implies !crate::text::is_space_char(#[trigger] whole[j]) by {
            if j < ps.first().len() {
                assert(whole[j] == ps[0][j]);
            } else if j == ps.first().len() {
                assert(whole[j] == sep);
            } else {
                assert(whole[j] == crate::text::join_with(ps.drop_first(), sep)[j - ps.first().len()
                    - 1]);
            }
        }
    }
}

/// A serialized line is four words joined by single spaces, each word
/// well formed and free of newlines.
#[verifier::rlimit(100)]
proof fn lemma_line_words(r: RelocationView)
    requires
        crate::relocation::module_valid(r.module),
    ensures
        line_of(r) == crate::text::join_with(
            seq![from_word(r), kind_word(r), to_word(r), module_word(r)],
            ' ',
        ),
        crate::text::word_ok(from_word(r)),
        crate::text::word_ok(kind_word(r)),
        crate::text::word_ok(to_word(r)),
        crate::text::word_ok(module_word(r)),
        crate::text::free_of(line_of(r), '\n'),
{
    crate::text::lemma_pow_constants();
    crate::text::lemma_num_seq_val(r.from as int, 8, 16);
    crate::text::lemma_num_seq_val(r.to as int, 8, 16);
    lemma_digits_are_plain(hex8(r.from), 16);
    lemma_digits_are_plain(hex8(r.to), 16);
    lemma_module_round_trip(r.module);
    lemma_kind_token_plain(r.kind);
    let ws = seq![from_word(r), kind_word(r), to_word(r), module_word(r)];
    let pm = seq![module_word(r)];
    let ptm = seq![to_word(r), module_word(r)];
    let pktm = seq![kind_word(r), to_word(r), module_word(r)];
    assert(crate::text::join_with(pm, ' ') == module_word(r));
    assert(crate::text::join_with(ptm, ' ') == to_word(r) + seq![' '] + module_word(r)) by {
        assert(ptm.drop_first() =~= pm);
        assert(ptm.first() == to_word(r));
    }
    assert(crate::text::join_with(pktm, ' ') == kind_word(r) + seq![' '] + (to_word(r)
        + seq![' '] + module_word(r))) by {
        assert(pktm.drop_first() =~= ptm);
        assert(pktm.first() == kind_word(r));
    }
    assert(crate::text::join_with(ws, ' ') == from_word(r) + seq![' '] + (kind_word(r)
        + seq![' '] + (to_word(r) + seq![' '] + module_word(r)))) by {
        assert(ws.drop_first() =~= pktm);
        assert(ws.first() == from_word(r));
    }
    assert(line_of(r) =~= from_word(r) + seq![' '] + (kind_word(r) + seq![' '] + (to_word(r)
        + seq![' '] + module_word(r))));
    assert forall|j: int|
        0 <= j < from_word(r).len() implies !crate::text::is_space_char(
        #[trigger] from_word(r)[j],
    ) && from_word(r)[j] != '\n' by {
        if j < 7 {
        } else {
            assert(from_word(r)[j] == hex8(r.from)[j - 7]);
        }
    }
    assert forall|j: int|
        0 <= j < to_word(r).len() implies !crate::text::is_space_char(#[trigger] to_word(r)[j])
        && to_word(r)[j] != '\n' by {
        if j < 5 {
        } else {
            assert(to_word(r)[j] == hex8(r.to)[j - 5]);
        }
    }
    assert forall|j: int|
        0 <= j < kind_word(r).len() implies !crate::text::is_space_char(
        #[trigger] kind_word(r)[j],
    ) && kind_word(r)[j] != '\n' by {
        if j < 5 {
        } else {
            assert(kind_word(r)[j] == kind_token(r.kind)[j - 5]);
        }
    }
    assert forall|j: int|
        0 <= j < module_word(r).len() implies !crate::text::is_space_char(
        #[trigger] module_word(r)[j],
    ) && module_word(r)[j] != '\n' by {
        if j < 7 {
        } else {
            assert(module_word(r)[j] == module_token(r.module)[j - 7]);
        }
    }
    lemma_free_concat(from_word(r), seq![' '], '\n');
    lemma_free_concat(kind_word(r), seq![' '], '\n');
    lemma_free_concat(to_word(r), seq![' '], '\n');
    lemma_free_concat(to_word(r) + seq![' '], module_word(r), '\n');
    lemma_free_concat(kind_word(r) + seq![' '], to_word(r) + seq![' '] + module_word(r), '\n');
    lemma_free_concat(
        from_word(r) + seq![' '],
        kind_word(r) + seq![' '] + (to_word(r) + seq![' '] + module_word(r)),
        '\n',
    );
    assert(line_of(r) =~= (from_word(r) + seq![' ']) + ((kind_word(r) + seq![' ']) + ((to_word(r)
        + seq![' ']) + module_word(r))));
    assert(kind_word(r) + seq![' '] + (to_word(r) + seq![' '] + module_word(r)) =~= (kind_word(r)
        + seq![' ']) + ((to_word(r) + seq![' ']) + module_word(r)));
    assert(to_word(r) + seq![' '] + module_word(r) =~= (to_word(r) + seq![' ']) + module_word(r));
}

/// A kind token has no whitespace, newline or colon.
proof fn lemma_kind_token_plain(k: RelocationKind)
    ensures
        forall|j: int|
            0 <= j < kind_token(k).len() ==> !crate::text::is_space_char(
                #[trigger] kind_token(k)[j],
            ) && kind_token(k)[j] != '\n' && kind_token(k)[j] != ':',
{
    assert forall|j: int|
        0 <= j < kind_token(k).len() implies !crate::text::is_space_char(
        #[trigger] kind_token(k)[j],
    ) && kind_token(k)[j] != '\n' && kind_token(k)[j] != ':' by {
        match k {
            RelocationKind::ArmCall => {},
            RelocationKind::ThumbCall => {},
            RelocationKind::ArmCallThumb => {},
            RelocationKind::ThumbCallArm => {},
            RelocationKind::Load => {},
        }
    }
}

/// Reading the `from` word sets the `from` attribute.
proof fn lemma_apply_from(r: RelocationView)
    ensures
        forall|st: AttrState|
            #[trigger] apply_attr(st, from_word(r)) == Some(
                AttrState { from: Some(r.from), ..st },
            ),
{
    assert(crate::text::free_of(from_key(), ':'));
    assert(from_word(r) =~= from_key() + seq![':'] + (seq!['0', 'x'] + hex8(r.from)));
    crate::text::lemma_split_first_glue(from_key(), seq!['0', 'x'] + hex8(r.from), ':');
    lemma_hex_round_trip(r.from);
}

/// Reading the `kind` word sets the `kind` attribute.
proof fn lemma_apply_kind(r: RelocationView)
    ensures
        forall|st: AttrState|
            #[trigger] apply_attr(st, kind_word(r)) == Some(
                AttrState { kind: Some(r.kind), ..st },
            ),
{
    assert(crate::text::free_of(kind_key(), ':'));
    assert(kind_word(r) =~= kind_key() + seq![':'] + kind_token(r.kind));
    crate::text::lemma_split_first_glue(kind_key(), kind_token(r.kind), ':');
    lemma_kind_round_trip(r.kind);
    assert(kind_key()[0] == 'k');
    assert(from_key()[0] == 'f');
    assert(kind_key() != from_key());
}

/// Reading the `to` word sets the `to` attribute.
proof fn lemma_apply_to(r: RelocationView)
    ensures
        forall|st: AttrState|
            #[trigger] apply_attr(st, to_word(r)) == Some(AttrState { to: Some(r.to), ..st }),
{
    assert(crate::text::free_of(to_key(), ':'));
    assert(to_word(r) =~= to_key() + seq![':'] + (seq!['0', 'x'] + hex8(r.to)));
    crate::text::lemma_split_first_glue(to_key(), seq!['0', 'x'] + hex8(r.to), ':');
    lemma_hex_round_trip(r.to);
    assert(to_key().len() == 2);
    assert(from_key().len() == 4);
}

/// Reading the `module` word sets the `module` attribute.
proof fn lemma_apply_module(r: RelocationView)
    requires
        crate::relocation::module_valid(r.module),
    ensures
        forall|st: AttrState|
            #[trigger] apply_attr(st, module_word(r)) == Some(
                AttrState { module: Some(r.module), ..st },
            ),
{
    assert(crate::text::free_of(module_key(), ':'));
    assert(module_word(r) =~= module_key() + seq![':'] + module_token(r.module));
    crate::text::lemma_split_first_glue(module_key(), module_token(r.module), ':');
    lemma_module_round_trip(r.module);
    assert(module_key().len() == 6);
    assert(from_key().len() == 4);
    assert(to_key().len() == 2);
    assert(kind_key().len() == 4);
}

/// One serialized line parses back to exactly its relocation.
#[verifier::rlimit(100)]
proof fn lemma_line_round_trip(r: RelocationView)
    requires
        crate::relocation::module_valid(r.module),
    ensures
        parse_line_spec(line_of(r)) == Result::<Option<RelocationView>, ()>::Ok(Some(r)),
{
    lemma_line_words(r);
    let ws = seq![from_word(r), kind_word(r), to_word(r), module_word(r)];
    crate::text::lemma_split_join_ws(ws);
    assert(split_ws(line_of(r)) == ws);
    lemma_apply_from(r);
    lemma_apply_kind(r);
    lemma_apply_to(r);
    lemma_apply_module(r);
    let st0 = AttrState { from: None, to: None, kind: None, module: None };
    let st1 = AttrState { from: Some(r.from), ..st0 };
    let st2 = AttrState { kind: Some(r.kind), ..st1 };
    let st3 = AttrState { to: Some(r.to), ..st2 };
    let st4 = AttrState { module: Some(r.module), ..st3 };
    assert(apply_attr(st0, from_word(r)) == Some(st1));
    assert(apply_attr(st1, kind_word(r)) == Some(st2));
    assert(apply_attr(st2, to_word(r)) == Some(st3));
    assert(apply_attr(st3, module_word(r)) == Some(st4));
    reveal_with_fuel(parse_attrs, 6);
    assert(parse_attrs(Seq::<Seq<char>>::empty()) == Some(st0));
    let ps1 = seq![from_word(r)];
    let ps2 = seq![from_word(r), kind_word(r)];
    let ps3 = seq![from_word(r), kind_word(r), to_word(r)];
    assert(parse_attrs(ps1) == Some(st1)) by {
        assert(ps1.drop_last() =~= Seq::<Seq<char>>::empty());
        assert(ps1.last() == from_word(r));
        assert(apply_attr(st0, from_word(r)) == Some(st1));
    }
    assert(parse_attrs(ps2) == Some(st2)) by {
        assert(ps2.drop_last() =~= ps1);
        assert(ps2.last() == kind_word(r));
        assert(apply_attr(st1, kind_word(r)) == Some(st2));
    }
    assert(parse_attrs(ps3) == Some(st3)) by {
        assert(ps3.drop_last() =~= ps2);
        assert(ps3.last() == to_word(r));
        assert(apply_attr(st2, to_word(r)) == Some(st3));
    }
    assert(parse_attrs(ws) == Some(st4)) by {
        assert(ws.drop_last() =~= ps3);
        assert(ws.last() == module_word(r));
        assert(apply_attr(st3, module_word(r)) == Some(st4));
    }
    assert(parse_line_spec(line_of(r)) == Result::<Option<RelocationView>, ()>::Ok(
        Some(RelocationView { from: r.from, to: r.to, kind: r.kind, module: r.module }),
    ));
    assert(RelocationView { from: r.from, to: r.to, kind: r.kind, module: r.module } == r);
}

/// Setting an entry whose address lies past every entry appends it.
proof fn lemma_set_entry_append(acc: Seq<RelocationView>, r: RelocationView)
    requires
        forall|k: int| 0 <= k < acc.len() ==> (#[trigger] acc[k]).from < r.from,
    ensures
        set_entry(acc, r) == acc.push(r),
    decreases acc.len(),
{
    lemma_find_absent(acc, r.from);
    lemma_insert_pos_end(acc, r.from);
    assert(acc.insert(acc.len() as int, r) =~= acc.push(r));
}

/// No entry of a table whose addresses are all smaller carries the
/// address.
proof fn lemma_find_absent(acc: Seq<RelocationView>, from: u32)
    requires
        forall|k: int| 0 <= k < acc.len() ==> (#[trigger] acc[k]).from < from,
    ensures
        find_from(acc, from) is None,
    decreases acc.len(),
{
    if acc.len() > 0 {
        assert(forall|k: int|
            0 <= k < acc.drop_first().len() ==> #[trigger] acc.drop_first()[k] == acc[k + 1]);
        lemma_find_absent(acc.drop_first(), from);
    }
}

/// An address past every entry belongs at the end.
proof fn lemma_insert_pos_end(acc: Seq<RelocationView>, from: u32)
    requires
        forall|k: int| 0 <= k < acc.len() ==> (#[trigger] acc[k]).from < from,
    ensures
        insert_pos(acc, from) == acc.len(),
    decreases acc.len(),
{
    if acc.len() > 0 {
        assert(forall|k: int|
            0 <= k < acc.drop_first().len() ==> #[trigger] acc.drop_first()[k] == acc[k + 1]);
        lemma_insert_pos_end(acc.drop_first(), from);
    }
}

/// Parsing the serialized lines of a table after some prefix appends the
/// table to the prefix.
#[verifier::rlimit(100)]
proof fn lemma_parse_lines_append(acc: Seq<RelocationView>, s: Seq<RelocationView>)
    requires
        sorted_strict(s),
        table_valid(s),
        forall|a: int, b: int|
            0 <= a < acc.len() && 0 <= b < s.len() ==> (#[trigger] acc[a]).from < (
            #[trigger] s[b]).from,
    ensures
        parse_lines(acc, split_sep(text_of(s), '\n')) == Result::<Seq<RelocationView>, ()>::Ok(
            acc + s,
        ),
    decreases s.len(),
{
    reveal_with_fuel(parse_lines, 3);
    if s.len() == 0 {
        assert(text_of(s) =~= Seq::<char>::empty());
        let lines = split_sep(Seq::<char>::empty(), '\n');
        assert(lines =~= seq![Seq::<char>::empty()]);
        assert(lines.first() =~= Seq::<char>::empty());
        assert(split_ws(Seq::<char>::empty()) =~= Seq::<Seq<char>>::empty());
        assert(parse_line_spec(lines.first()) == Result::<Option<RelocationView>, ()>::Ok(None));
        assert(lines.drop_first() =~= Seq::<Seq<char>>::empty());
        assert(acc + s =~= acc);
    } else {
        let r0 = s.first();
        let rest = s.drop_first();
        assert(forall|k: int| 0 <= k < rest.len() ==> #[trigger] rest[k] == s[k + 1]);
        assert(s[0] == r0);
        lemma_line_words(r0);
        lemma_line_round_trip(r0);
        let tail = seq!['\n'] + text_of(rest);
        assert(text_of(s) =~= line_of(r0) + tail);
        crate::text::lemma_split_sep_prepend(line_of(r0), tail, '\n');
        assert(tail.first() == '\n');
        assert(tail.drop_first() =~= text_of(rest));
        let lines = split_sep(text_of(s), '\n');
        assert(lines == seq![line_of(r0)] + split_sep(text_of(rest), '\n'));
        assert(lines.first() == line_of(r0));
        assert(lines.drop_first() =~= split_sep(text_of(rest), '\n'));
        lemma_set_entry_append(acc, r0);
        let acc2 = acc.push(r0);
        assert forall|i: int, j: int| 0 <= i < j < rest.len() implies rest[i].from
            < rest[j].from by {
            assert(rest[i] == s[i + 1]);
            assert(rest[j] == s[j + 1]);
        }
        assert forall|i: int|
            0 <= i < rest.len() implies crate::relocation::module_valid(
            (#[trigger] rest[i]).module,
        ) by {
            assert(rest[i] == s[i + 1]);
        }
        assert forall|a: int, b: int|
            0 <= a < acc2.len() && 0 <= b < rest.len() implies (#[trigger] acc2[a]).from < (
        #[trigger] rest[b]).from by {
            assert(rest[b] == s[b + 1]);
            if a < acc.len() {
                assert(acc2[a] == acc[a]);
            } else {
                assert(acc2[a] == r0);
            }
        }
        lemma_parse_lines_append(acc2, rest);
        assert(acc2 + rest =~= acc + s);
    }
}

/// Parsing a serialized table gives the table back: the round trip of the
/// relocation text format.
pub proof fn lemma_round_trip(s: Seq<RelocationView>)
    requires
        sorted_strict(s),
        table_valid(s),
    ensures
        parse_lines(Seq::<RelocationView>::empty(), split_sep(text_of(s), '\n')) == Result::<
            Seq<RelocationView>,
            (),
        >::Ok(s),
{
    lemma_parse_lines_append(Seq::<RelocationView>::empty(), s);
    assert(Seq::<RelocationView>::empty() + s =~= s);
}

/// The characters of a string, in order.
pub fn chars_of_str(s: &str) -> (v: Vec<char>)
    ensures
        v@ == s@,
{
    let n = s.unicode_len();
    let mut v: Vec<char> = Vec::new();
    let mut i: usize = 0;
    while i < n
        invariant
            0 <= i <= n == s@.len(),
            v@ == s@.subrange(0, i as int),
        decreases n - i,
    {
        v.push(s.get_char(i));
        proof {
            assert(s@.subrange(0, i as int + 1) =~= s@.subrange(0, i as int).push(s@[i as int]));
        }
        i += 1;
    }
    proof {
        assert(s@.subrange(0, s@.len() as int) =~= s@);
    }
    v
}

/// Relies on `String::push`: it appends exactly the one character.
#[verifier::external_body]
fn push_char(s: &mut String, c: char)
    ensures
        final(s)@ == old(s)@.push(c),
{
    s.push(c);
}

/// A string holding exactly the given characters.
pub fn string_of_chars(v: &Vec<char>) -> (s: String)
    ensures
        s@ == v@,
{
    let mut s = String::new();
    let mut i: usize = 0;
    while i < v.len()
        invariant
            0 <= i <= v@.len(),
            s@ == v@.subrange(0, i as int),
        decreases v.len() - i,
    {
        push_char(&mut s, v[i]);
        proof {
            assert(v@.subrange(0, i as int + 1) =~= v@.subrange(0, i as int).push(v@[i as int]));
        }
        i += 1;
    }
    proof {
        assert(v@.subrange(0, v@.len() as int) =~= v@);
    }
    s
}

/// Append the characters of a kind token.
fn push_kind_token(out: &mut Vec<char>, k: RelocationKind)
    ensures
        final(out)@ == old(out)@ + kind_token(k),
{
    let w: Vec<char> = match k {
        RelocationKind::ArmCall => vec!['a', 'r', 'm', '_', 'c', 'a', 'l', 'l'],
        RelocationKind::ThumbCall => vec!['t', 'h', 'u', 'm', 'b', '_', 'c', 'a', 'l', 'l'],
        RelocationKind::ArmCallThumb => vec![
            'a', 'r', 'm', '_', 'c', 'a', 'l', 'l', '_', 't', 'h', 'u', 'm', 'b',
        ],
        RelocationKind::ThumbCallArm => vec![
            't', 'h', 'u', 'm', 'b', '_', 'c', 'a', 'l', 'l', '_', 'a', 'r', 'm',
        ],
        RelocationKind::Load => vec!['l', 'o', 'a', 'd'],
    };
    proof {
        assert(w@ =~= kind_token(k));
    }
    push_all(out, &w);
}

/// `join_with` grows one piece and one separator at a time.
proof fn lemma_join_with_take(ps: Seq<Seq<char>>, sep: char, i: int)
    requires
        1 <= i < ps.len(),
    ensures
        crate::text::join_with(ps.take(i + 1), sep) == crate::text::join_with(ps.take(i), sep)
            + seq![sep] + ps[i],
    decreases i,
{
    let a = ps.take(i + 1);
    let b = ps.take(i);
    if i == 1 {
        assert(a.len() == 2);
        assert(a.drop_first() =~= seq![ps[1]]);
        assert(crate::text::join_with(a.drop_first(), sep) == ps[1]);
        assert(b =~= seq![ps[0]]);
        assert(crate::text::join_with(a, sep) == a.first() + seq![sep] + ps[1]);
        assert(a.first() == ps[0]);
        assert(crate::text::join_with(b, sep) == ps[0]);
    } else {
        let t = ps.drop_first();
        lemma_join_with_take(t, sep, i - 1);
        assert(a.drop_first() =~= t.take(i));
        assert(b.drop_first() =~= t.take(i - 1));
        assert(t.take(i)[i - 1] == ps[i]);
        assert(a.len() >= 2 && b.len() >= 2);
        assert(crate::text::join_with(a, sep) == a.first() + seq![sep] + crate::text::join_with(
            t.take(i),
            sep,
        ));
        assert(crate::text::join_with(b, sep) == b.first() + seq![sep] + crate::text::join_with(
            t.take(i - 1),
            sep,
        ));
        assert(crate::text::join_with(t.take(i), sep) == crate::text::join_with(t.take(i - 1), sep)
            + seq![sep] + t[i - 1]);
        assert(t[i - 1] == ps[i]);
        assert(a.first() == ps[0] && b.first() == ps[0]);
        assert(a.first() + seq![sep] + (crate::text::join_with(t.take(i - 1), sep) + seq![sep]
            + ps[i]) =~= (b.first() + seq![sep] + crate::text::join_with(t.take(i - 1), sep))
            + seq![sep] + ps[i]);
    }
}

/// Append the characters of a module target.
fn push_module_token(out: &mut Vec<char>, m: &RelocationModule)
    requires
        module_valid(m@),
    ensures
        final(out)@ == old(out)@ + module_token(m@),
{
    match m {
        RelocationModule::NoTarget => {
            let w: Vec<char> = vec!['n', 'o', 'n', 'e'];
            proof {
                assert(w@ =~= none_token());
            }
            push_all(out, &w);
        },
        RelocationModule::Main => {
            let w: Vec<char> = vec!['m', 'a', 'i', 'n'];
            proof {
                assert(w@ =~= main_token());
            }
            push_all(out, &w);
        },
        RelocationModule::Itcm => {
            let w: Vec<char> = vec!['i', 't', 'c', 'm'];
            proof {
                assert(w@ =~= itcm_token());
            }
            push_all(out, &w);
        },
        RelocationModule::Dtcm => {
            let w: Vec<char> = vec!['d', 't', 'c', 'm'];
            proof {
                assert(w@ =~= dtcm_token());
            }
            push_all(out, &w);
        },
        RelocationModule::Overlay { id } => {
            let w: Vec<char> = vec!['o', 'v', 'e', 'r', 'l', 'a', 'y', '('];
            proof {
                assert(w@ =~= overlay_token() + seq!['(']);
            }
            push_all(out, &w);
            push_dec_u16(out, *id);
            out.push(')');
            proof {
                assert(old(out)@ + (overlay_token() + seq!['(']) + dec_seq(*id as int) + seq![')']
                    =~= old(out)@ + module_token(m@));
                assert((old(out)@ + (overlay_token() + seq!['(']) + dec_seq(*id as int)).push(')')
                    =~= old(out)@ + (overlay_token() + seq!['(']) + dec_seq(*id as int)
                    + seq![')']);
            }
        },
        RelocationModule::Overlays { ids } => {
            let w: Vec<char> = vec!['o', 'v', 'e', 'r', 'l', 'a', 'y', 's', '('];
            proof {
                assert(w@ =~= overlays_token() + seq!['(']);
            }
            push_all(out, &w);
            let ghost base = old(out)@ + (overlays_token() + seq!['(']);
            push_dec_u16(out, ids[0]);
            proof {
                assert(dec_tokens(ids@)[0] == dec_seq(ids@[0] as int));
                assert(dec_tokens(ids@).take(1) =~= seq![dec_tokens(ids@)[0]]);
                assert(crate::text::join_with(dec_tokens(ids@).take(1), ',') == dec_seq(
                    ids@[0] as int,
                ));
            }
            let mut i: usize = 1;
            while i < ids.len()
                invariant
                    1 <= i <= ids@.len(),
                    base == old(out)@ + (overlays_token() + seq!['(']),
                    out@ == base + crate::text::join_with(dec_tokens(ids@).take(i as int), ','),
                decreases ids@.len() - i,
            {
                out.push(',');
                push_dec_u16(out, ids[i]);
                proof {
                    lemma_join_with_take(dec_tokens(ids@), ',', i as int);
                    assert(dec_tokens(ids@)[i as int] == dec_seq(ids@[i as int] as int));
                    assert((base + crate::text::join_with(dec_tokens(ids@).take(i as int),
                        ',')).push(',') + dec_seq(ids@[i as int] as int) =~= base
                        + (crate::text::join_with(dec_tokens(ids@).take(i as int), ',')
                        + seq![','] + dec_tokens(ids@)[i as int]));
                }
                i += 1;
            }
            out.push(')');
            proof {
                assert(dec_tokens(ids@).take(ids@.len() as int) =~= dec_tokens(ids@));
                assert((base + crate::text::join_with(dec_tokens(ids@), ',')).push(')') =~= old(
                    out,
                )@ + module_token(m@));
            }
        },
    }
}

/// A hexadecimal address value, parsed.
fn parse_hex_u32_exec(v: &Vec<char>) -> (r: Option<u32>)
    ensures
        r == parse_hex_u32_spec(v@),
{
    if v.len() < 3 || v.len() > 10 {
        return None;
    }
    if v[0] != '0' || v[1] != 'x' {
        return None;
    }
    proof {
        crate::text::lemma_pow_constants();
    }
    match parse_digits(v, 2, v.len(), 16, 8) {
        Some(val) => Some(val),
        None => None,
    }
}

/// An overlay id, parsed.
fn parse_dec_u16_exec(v: &Vec<char>) -> (r: Option<u16>)
    ensures
        r == parse_dec_u16_spec(v@),
{
    proof {
        crate::text::lemma_pow_constants();
        assert(v@.subrange(0, v@.len() as int) =~= v@);
    }
    match parse_digits(v, 0, v.len(), 10, 5) {
        Some(val) => {
            if val <= 0xffff {
                Some(val as u16)
            } else {
                None
            }
        },
        None => None,
    }
}

/// A relocation kind token, parsed.
fn parse_kind_exec(v: &Vec<char>) -> (r: Option<RelocationKind>)
    ensures
        r == parse_kind_spec(v@),
{
    let t1: Vec<char> = vec!['a', 'r', 'm', '_', 'c', 'a', 'l', 'l'];
    let t2: Vec<char> = vec!['t', 'h', 'u', 'm', 'b', '_', 'c', 'a', 'l', 'l'];
    let t3: Vec<char> = vec![
        'a', 'r', 'm', '_', 'c', 'a', 'l', 'l', '_', 't', 'h', 'u', 'm', 'b',
    ];
    let t4: Vec<char> = vec![
        't', 'h', 'u', 'm', 'b', '_', 'c', 'a', 'l', 'l', '_', 'a', 'r', 'm',
    ];
    let t5: Vec<char> = vec!['l', 'o', 'a', 'd'];
    proof {
        assert(t1@ =~= kind_token(RelocationKind::ArmCall));
        assert(t2@ =~= kind_token(RelocationKind::ThumbCall));
        assert(t3@ =~= kind_token(RelocationKind::ArmCallThumb));
        assert(t4@ =~= kind_token(RelocationKind::ThumbCallArm));
        assert(t5@ =~= kind_token(RelocationKind::Load));
    }
    if chars_eq(v, &t1) {
        Some(RelocationKind::ArmCall)
    } else if chars_eq(v, &t2) {
        Some(RelocationKind::ThumbCall)
    } else if chars_eq(v, &t3) {
        Some(RelocationKind::ArmCallThumb)
    } else if chars_eq(v, &t4) {
        Some(RelocationKind::ThumbCallArm)
    } else if chars_eq(v, &t5) {
        Some(RelocationKind::Load)
    } else {
        None
    }
}

/// A comma-separated list of overlay ids, parsed.
fn parse_ids_exec(options: &Vec<char>) -> (r: Option<Vec<u16>>)
    ensures
        match r {
            Some(ids) => parse_ids_spec(split_sep(options@, ',')) == Some(ids@),
            None => parse_ids_spec(split_sep(options@, ',')) is None,
        },
{
    let pieces = split_sep_exec(options, ',');
    let ghost pv = pieces.deep_view();
    let mut ids: Vec<u16> = Vec::new();
    let mut i: usize = 0;
    proof {
        assert(pv.skip(0) =~= pv);
    }
    while i < pieces.len()
        invariant
            0 <= i <= pieces@.len(),
            pv == pieces.deep_view(),
            pv == split_sep(options@, ','),
            ids@.len() == i,
            match parse_ids_spec(pv.skip(i as int)) {
                Option::None => parse_ids_spec(pv) is None,
                Option::Some(rest) => parse_ids_spec(pv) == Some(ids@ + rest),
            },
        decreases pieces@.len() - i,
    {
        let ghost tail = pv.skip(i as int);
        proof {
            assert(tail.first() == pv[i as int]);
            assert(pv[i as int] == pieces@[i as int].deep_view());
            assert(pieces@[i as int].deep_view() =~= pieces@[i as int]@);
            assert(tail.drop_first() =~= pv.skip(i as int + 1));
        }
        match parse_dec_u16_exec(&pieces[i]) {
            Some(id) => {
                let ghost ids_old = ids@;
                ids.push(id);
                proof {
                    if parse_ids_spec(pv.skip(i as int + 1)) is Some {
                        let rest = parse_ids_spec(pv.skip(i as int + 1))->Some_0;
                        assert(parse_ids_spec(tail) == Some(seq![id] + rest));
                        assert(ids_old + (seq![id] + rest) =~= ids@ + rest);
                    }
                }
            },
            None => {
                proof {
                    assert(parse_ids_spec(tail) is None);
                }
                return None;
            },
        }
        i += 1;
    }
    proof {
        assert(pv.skip(pieces@.len() as int) =~= Seq::<Seq<char>>::empty());
        assert(parse_ids_spec(pv) == Some(ids@ + Seq::<u16>::empty()));
        assert(ids@ + Seq::<u16>::empty() =~= ids@);
    }
    Some(ids)
}

/// A module target value, parsed.
#[verifier::rlimit(60)]
fn parse_module_exec(v: &Vec<char>) -> (r: Option<RelocationModule>)
    ensures
        match r {
            Some(m) => parse_module_spec(v@) == Some(m@) && module_valid(m@),
            None => parse_module_spec(v@) is None,
        },
{
    let (value, options) = match split_first_exec(v, '(') {
        None => {
            let value = subvec(v, 0, v.len());
            let options: Vec<char> = Vec::new();
            proof {
                assert(value@ =~= v@);
                assert(options@ =~= Seq::<char>::empty());
            }
            (value, options)
        },
        Some((val, raw)) => {
            let options = if raw.len() > 0 && raw[raw.len() - 1] == ')' {
                let o = subvec(&raw, 0, raw.len() - 1);
                proof {
                    assert(o@ =~= raw@.drop_last());
                }
                o
            } else {
                raw
            };
            (val, options)
        },
    };
    proof {
        assert(module_value_options(v@) == (value@, options@));
    }
    let n_tok: Vec<char> = vec!['n', 'o', 'n', 'e'];
    let m_tok: Vec<char> = vec!['m', 'a', 'i', 'n'];
    let i_tok: Vec<char> = vec!['i', 't', 'c', 'm'];
    let d_tok: Vec<char> = vec!['d', 't', 'c', 'm'];
    let o_tok: Vec<char> = vec!['o', 'v', 'e', 'r', 'l', 'a', 'y'];
    let os_tok: Vec<char> = vec!['o', 'v', 'e', 'r', 'l', 'a', 'y', 's'];
    proof {
        assert(n_tok@ =~= none_token());
        assert(m_tok@ =~= main_token());
        assert(i_tok@ =~= itcm_token());
        assert(d_tok@ =~= dtcm_token());
        assert(o_tok@ =~= overlay_token());
        assert(os_tok@ =~= overlays_token());
    }
    if chars_eq(&value, &n_tok) {
        if options.len() == 0 {
            Some(RelocationModule::NoTarget)
        } else {
            None
        }
    } else if chars_eq(&value, &o_tok) {
        match parse_dec_u16_exec(&options) {
            Some(id) => Some(RelocationModule::Overlay { id }),
            None => None,
        }
    } else if chars_eq(&value, &os_tok) {
        match parse_ids_exec(&options) {
            Some(ids) => {
                if ids.len() >= 2 {
                    Some(RelocationModule::Overlays { ids })
                } else {
                    None
                }
            },
            None => None,
        }
    } else if chars_eq(&value, &m_tok) {
        if options.len() == 0 {
            Some(RelocationModule::Main)
        } else {
            None
        }
    } else if chars_eq(&value, &i_tok) {
        if options.len() == 0 {
            Some(RelocationModule::Itcm)
        } else {
            None
        }
    } else if chars_eq(&value, &d_tok) {
        if options.len() == 0 {
            Some(RelocationModule::Dtcm)
        } else {
            None
        }
    } else {
        None
    }
}

/// A prefix of the words that fails to parse fails the whole line.
proof fn lemma_parse_attrs_prefix_none(ws: Seq<Seq<char>>, k: int)
    requires
        0 <= k <= ws.len(),
        parse_attrs(ws.take(k)) is None,
    ensures
        parse_attrs(ws) is None,
    decreases ws.len() - k,
{
    if k == ws.len() {
        assert(ws.take(k) =~= ws);
    } else {
        assert(ws.take(k + 1).drop_last() =~= ws.take(k));
        lemma_parse_attrs_prefix_none(ws, k + 1);
    }
}

/// One line parsed into a relocation, a skip, or a failure.
pub fn parse_line_vec(line: &Vec<char>) -> (r: Result<Option<Relocation>, ()>)
    ensures
        match r {
            Ok(Some(rel)) => parse_line_spec(line@) == Result::<Option<RelocationView>, ()>::Ok(Some(rel@)) && module_valid(
                rel@.module,
            ),
            Ok(None) => parse_line_spec(line@) == Result::<Option<RelocationView>, ()>::Ok(None),
            Err(_) => parse_line_spec(line@) is Err,
        },
{
    let words = split_ws_exec(line);
    let ghost wsv = words.deep_view();
    if words.len() == 0 {
        return Ok(None);
    }
    let f_key: Vec<char> = vec!['f', 'r', 'o', 'm'];
    let t_key: Vec<char> = vec!['t', 'o'];
    let k_key: Vec<char> = vec!['k', 'i', 'n', 'd'];
    let m_key: Vec<char> = vec!['m', 'o', 'd', 'u', 'l', 'e'];
    proof {
        assert(f_key@ =~= from_key());
        assert(t_key@ =~= to_key());
        assert(k_key@ =~= kind_key());
        assert(m_key@ =~= module_key());
    }
    let mut from: Option<u32> = None;
    let mut to: Option<u32> = None;
    let mut kind: Option<RelocationKind> = None;
    let mut module: Option<RelocationModule> = None;
    let mut i: usize = 0;
    proof {
        assert(wsv.take(0) =~= Seq::<Seq<char>>::empty());
    }
    while i < words.len()
        invariant
            0 <= i <= words@.len(),
            wsv == words.deep_view(),
            wsv == split_ws(line@),
            wsv.len() > 0,
            f_key@ == from_key(),
            t_key@ == to_key(),
            k_key@ == kind_key(),
            m_key@ == module_key(),
            parse_attrs(wsv.take(i as int)) == Some(
                AttrState { from, to, kind, module: opt_module_view(module) },
            ),
            match module {
                Option::Some(m) => module_valid(m@),
                Option::None => true,
            },
        decreases words@.len() - i,
    {
        let ghost st = AttrState { from, to, kind, module: opt_module_view(module) };
        let ghost w_view = wsv[i as int];
        proof {
            assert(wsv.take(i as int + 1).drop_last() =~= wsv.take(i as int));
            assert(wsv.take(i as int + 1).last() == wsv[i as int]);
            assert(wsv[i as int] == words@[i as int].deep_view());
            assert(words@[i as int].deep_view() =~= words@[i as int]@);
        }
        match split_first_exec(&words[i], ':') {
            None => {
                proof {
                    assert(apply_attr(st, w_view) is None);
                    lemma_parse_attrs_prefix_none(wsv, i as int + 1);
                }
                return Err(());
            },
            Some((key, value)) => {
                if chars_eq(&key, &f_key) {
                    match parse_hex_u32_exec(&value) {
                        Some(a) => {
                            from = Some(a);
                        },
                        None => {
                            proof {
                                assert(apply_attr(st, w_view) is None);
                                lemma_parse_attrs_prefix_none(wsv, i as int + 1);
                            }
                            return Err(());
                        },
                    }
                } else if chars_eq(&key, &t_key) {
                    match parse_hex_u32_exec(&value) {
                        Some(a) => {
                            to = Some(a);
                        },
                        None => {
                            proof {
                                assert(apply_attr(st, w_view) is None);
                                lemma_parse_attrs_prefix_none(wsv, i as int + 1);
                            }
                            return Err(());
                        },
                    }
                } else if chars_eq(&key, &k_key) {
                    match parse_kind_exec(&value) {
                        Some(k) => {
                            kind = Some(k);
                        },
                        None => {
                            proof {
                                assert(apply_attr(st, w_view) is None);
                                lemma_parse_attrs_prefix_none(wsv, i as int + 1);
                            }
                            return Err(());
                        },
                    }
                } else if chars_eq(&key, &m_key) {
                    match parse_module_exec(&value) {
                        Some(m) => {
                            module = Some(m);
                        },
                        None => {
                            proof {
                                assert(apply_attr(st, w_view) is None);
                                lemma_parse_attrs_prefix_none(wsv, i as int + 1);
                            }
                            return Err(());
                        },
                    }
                } else {
                    proof {
                        assert(apply_attr(st, w_view) is None);
                        lemma_parse_attrs_prefix_none(wsv, i as int + 1);
                    }
                    return Err(());
                }
                proof {
                    assert(parse_attrs(wsv.take(i as int + 1)) == Some(
                        AttrState { from, to, kind, module: opt_module_view(module) },
                    ));
                }
            },
        }
        i += 1;
    }
    proof {
        assert(wsv.take(words@.len() as int) =~= wsv);
    }
    match (from, to, kind, module) {
        (Some(f), Some(t), Some(k), Some(m)) => Ok(Some(Relocation::assemble(f, t, k, m))),
        _ => Err(()),
    }
}

/// The view of a gathered module attribute.
pub open spec fn opt_module_view(m: Option<RelocationModule>) -> Option<ModuleView> {
    match m {
        Some(m) => Some(m@),
        None => None,
    }
}

impl RelocationKind {
    /// A relocation kind token parsed: one of `arm_call`, `thumb_call`,
    /// `arm_call_thumb`, `thumb_call_arm`, `load`.
    pub fn parse(text: &str) -> (r: Option<RelocationKind>)
        ensures
            r == parse_kind_spec(text@),
    {
        let chars = chars_of_str(text);
        parse_kind_exec(&chars)
    }
}

impl RelocationModule {
    /// A module target value parsed: `none`, `main`, `itcm`, `dtcm`,
    /// `overlay(id)`, or `overlays(id,id,...)` with at least two ids.
    pub fn parse(text: &str) -> (r: Option<RelocationModule>)
        ensures
            match r {
                Some(m) => parse_module_spec(text@) == Some(m@) && module_valid(m@),
                None => parse_module_spec(text@) is None,
            },
    {
        let chars = chars_of_str(text);
        parse_module_exec(&chars)
    }
}

impl Relocation {
    /// One line of a relocation file parsed: a relocation, a skipped blank
    /// line, or an error naming the row.
    pub fn parse(line: &str, context: &ParseContext) -> (r: Result<Option<Relocation>, ParseError
    >)
        ensures
            match r {
                Ok(Some(rel)) => parse_line_spec(line@) == Result::<Option<RelocationView>, ()>::Ok(Some(rel@)) && module_valid(
                    rel@.module,
                ),
                Ok(None) => parse_line_spec(line@) == Result::<Option<RelocationView>, ()>::Ok(
                    None,
                ),
                Err(e) => parse_line_spec(line@) is Err && e.row == context.row,
            },
    {
        let chars = chars_of_str(line);
        match parse_line_vec(&chars) {
            Ok(r) => Ok(r),
            Err(_) => Err(ParseError { row: context.row }),
        }
    }

    /// The serialized line of this relocation, without the newline.
    pub fn text_line(&self) -> (s: String)
        requires
            module_valid(self@.module),
        ensures
            s@ == line_of(self@),
    {
        let chars = line_chars(self);
        string_of_chars(&chars)
    }
}

/// Every module target of the table is well formed.
pub open spec fn table_valid(s: Seq<RelocationView>) -> bool {
    forall|i: int| 0 <= i < s.len() ==> module_valid(#[trigger] s[i].module)
}

/// `text_of` grows one line at a time.
proof fn lemma_text_of_take(s: Seq<RelocationView>, i: int)
    requires
        0 <= i < s.len(),
    ensures
        text_of(s.take(i + 1)) == text_of(s.take(i)) + line_of(s[i]) + seq!['\n'],
    decreases i,
{
    if i == 0 {
        let a = s.take(1);
        assert(a.first() == s[0]);
        assert(a.drop_first() =~= Seq::<RelocationView>::empty());
        assert(text_of(a) == line_of(s[0]) + seq!['\n'] + text_of(Seq::<RelocationView>::empty()));
        assert(line_of(s[0]) + seq!['\n'] + Seq::<char>::empty() =~= Seq::<char>::empty()
            + line_of(s[0]) + seq!['\n']);
        assert(s.take(0) =~= Seq::<RelocationView>::empty());
    } else {
        let t = s.drop_first();
        lemma_text_of_take(t, i - 1);
        let a = s.take(i + 1);
        let b = s.take(i);
        assert(a.first() == s[0] && b.first() == s[0]);
        assert(a.drop_first() =~= t.take(i));
        assert(b.drop_first() =~= t.take(i - 1));
        assert(t[i - 1] == s[i]);
        assert(text_of(a) == line_of(s[0]) + seq!['\n'] + text_of(t.take(i)));
        assert(text_of(b) == line_of(s[0]) + seq!['\n'] + text_of(t.take(i - 1)));
        assert(line_of(s[0]) + seq!['\n'] + (text_of(t.take(i - 1)) + line_of(s[i]) + seq!['\n'])
            =~= (line_of(s[0]) + seq!['\n'] + text_of(t.take(i - 1))) + line_of(s[i])
            + seq!['\n']);
    }
}

impl Relocations {
    /// The serialized text of the table: each relocation's line in
    /// ascending source-address order, each followed by a newline.
    pub fn to_text(&self) -> (s: String)
        requires
            self.wf(),
            table_valid(self@),
        ensures
            s@ == text_of(self@),
    {
        let entries = self.iter();
        let mut out: Vec<char> = Vec::new();
        let mut i: usize = 0;
        proof {
            assert(self@.take(0) =~= Seq::<RelocationView>::empty());
        }
        while i < entries.len()
            invariant
                0 <= i <= entries@.len() == self@.len(),
                self.wf(),
                table_valid(self@),
                forall|k: int| 0 <= k < entries@.len() ==> #[trigger] entries@[k]@ == self@[k],
                out@ == text_of(self@.take(i as int)),
            decreases entries@.len() - i,
        {
            let line = line_chars(&entries[i]);
            push_all(&mut out, &line);
            out.push('\n');
            proof {
                lemma_text_of_take(self@, i as int);
                assert((text_of(self@.take(i as int)) + line_of(self@[i as int])).push('\n')
                    =~= text_of(self@.take(i as int)) + line_of(self@[i as int]) + seq!['\n']);
            }
            i += 1;
        }
        proof {
            assert(self@.take(self@.len() as int) =~= self@);
        }
        string_of_chars(&out)
    }

    /// A table read from relocation-file text: lines parsed in order, a
    /// later relocation replacing an earlier one at the same address. The
    /// error names the first malformed row, counting from one.
    pub fn from_text(text: &str) -> (r: Result<Relocations, ParseError>)
        ensures
            match r {
                Ok(t) => t.wf() && parse_lines(
                    Seq::<RelocationView>::empty(),
                    split_sep(text@, '\n'),
                ) == Result::<Seq<RelocationView>, ()>::Ok(t@),
                Err(_) => parse_lines(Seq::<RelocationView>::empty(), split_sep(text@, '\n'))
                    is Err,
            },
    {
        let chars = chars_of_str(text);
        let lines = split_sep_exec(&chars, '\n');
        let ghost lv = lines.deep_view();
        let mut table = Relocations::new();
        let mut i: usize = 0;
        proof {
            assert(lv.skip(0) =~= lv);
            assert(parse_lines(Seq::<RelocationView>::empty(), lv) == parse_lines(
                table@,
                lv.skip(0),
            ));
        }
        while i < lines.len()
            invariant
                0 <= i <= lines@.len(),
                lv == lines.deep_view(),
                lv == split_sep(text@, '\n'),
                table.wf(),
                parse_lines(Seq::<RelocationView>::empty(), lv) == parse_lines(
                    table@,
                    lv.skip(i as int),
                ),
            decreases lines@.len() - i,
        {
            let ghost tail = lv.skip(i as int);
            proof {
                assert(tail.first() == lv[i as int]);
                assert(lv[i as int] == lines@[i as int].deep_view());
                assert(lines@[i as int].deep_view() =~= lines@[i as int]@);
                assert(tail.drop_first() =~= lv.skip(i as int + 1));
            }
            match parse_line_vec(&lines[i]) {
                Ok(Some(rel)) => {
                    proof {
                        assert(parse_lines(table@, tail) == parse_lines(
                            set_entry(table@, rel@),
                            lv.skip(i as int + 1),
                        ));
                    }
                    table.put(rel);
                },
                Ok(None) => {
                    proof {
                        assert(parse_lines(table@, tail) == parse_lines(
                            table@,
                            lv.skip(i as int + 1),
                        ));
                    }
                },
                Err(_) => {
                    proof {
                        assert(parse_lines(table@, tail) is Err);
                    }
                    return Err(ParseError { row: i + 1 });
                },
            }
            i += 1;
        }
        proof {
            assert(lv.skip(lines@.len() as int) =~= Seq::<Seq<char>>::empty());
        }
        Ok(table)
    }
}

/// The serialized line of one relocation, as characters.
pub fn line_chars(r: &Relocation) -> (out: Vec<char>)
    requires
        module_valid(r@.module),
    ensures
        out@ == line_of(r@),
{
    let mut out: Vec<char> = Vec::new();
    let w: Vec<char> = vec!['f', 'r', 'o', 'm', ':', '0', 'x'];
    proof {
        assert(w@ =~= from_key() + seq![':', '0', 'x']);
        assert(Seq::<char>::empty() + w@ =~= w@);
    }
    push_all(&mut out, &w);
    push_hex8(&mut out, r.from_address());
    out.push(' ');
    let w2: Vec<char> = vec!['k', 'i', 'n', 'd', ':'];
    proof {
        assert(w2@ =~= kind_key() + seq![':']);
    }
    push_all(&mut out, &w2);
    push_kind_token(&mut out, r.kind());
    out.push(' ');
    let w3: Vec<char> = vec!['t', 'o', ':', '0', 'x'];
    proof {
        assert(w3@ =~= to_key() + seq![':', '0', 'x']);
    }
    push_all(&mut out, &w3);
    push_hex8(&mut out, r.to_address());
    out.push(' ');
    let w4: Vec<char> = vec!['m', 'o', 'd', 'u', 'l', 'e', ':'];
    proof {
        assert(w4@ =~= module_key() + seq![':']);
    }
    push_all(&mut out, &w4);
    push_module_token(&mut out, r.module());
    proof {
        assert(out@ =~= line_of(r@));
    }
    out
}

} // verus!
