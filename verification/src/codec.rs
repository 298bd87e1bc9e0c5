//! Count keys and their text codec.
//!
//! A count key is either one chord (an ordered sequence of key
//! identifiers pressed together) or an ordered pair of chords. A chord
//! encodes as its key names joined by `+`; a pair joins its two chord
//! tokens with `", "`. Decoding splits on the first occurrences of those
//! delimiters, trims whitespace around each name, drops empty segments,
//! and rejects unknown (delimiter-bearing) names and ambiguous tokens.

use vstd::prelude::*;
use vstd::string::{StrSliceExecFns, StringExecFns};

use crate::text::{
    free_of, join1, lemma_join1_snoc, lemma_split1_join1, lemma_split2_len, lemma_split2_no_sep,
    lemma_split2_sep_at, lemma_trim_id, no_match2, split1, split2, split_str1, split_str2,
    strs_view, trim, trim_str,
};
use crate::{name_char, valid_name};

verus! {

/// One key, identified by its stable textual name.
#[derive(Debug, Eq, PartialEq, Hash, Clone)]
pub struct KeyId {
    name: String,
}

impl View for KeyId {
    type V = Seq<char>;

    closed spec fn view(&self) -> Seq<char> {
        self.name@
    }
}

impl DeepView for KeyId {
    type V = Seq<char>;

    open spec fn deep_view(&self) -> Seq<char> {
        self.view()
    }
}

impl KeyId {
    /// Build a key identifier, rejecting names that would collide with
    /// the codec's delimiters.
    pub fn new(name: String) -> (r: Option<KeyId>)
        ensures
            r matches Some(k) ==> k@ == name@ && valid_name(name@),
            r is None ==> !valid_name(name@),
    {
        if is_valid_name_str(name.as_str()) {
            Some(KeyId { name })
        } else {
            None
        }
    }

    /// The key's textual name.
    pub fn name(&self) -> (r: &str)
        ensures
            r@ == self@,
    {
        self.name.as_str()
    }

    /// A copy of this key with the same name.
    pub fn duplicate(&self) -> (r: KeyId)
        ensures
            r@ == self@,
    {
        KeyId { name: self.name.clone() }
    }
}

/// A copy of a chord with the same keys.
pub fn clone_chord(v: &Vec<KeyId>) -> (r: Vec<KeyId>)
    ensures
        r.deep_view() == v.deep_view(),
{
    let mut r: Vec<KeyId> = Vec::new();
    let mut i: usize = 0;
    proof {
        assert(r.deep_view() =~~= v.deep_view().take(0));
    }
    while i < v.len()
        invariant
            i <= v@.len(),
            r.deep_view() == v.deep_view().take(i as int),
        decreases v@.len() - i,
    {
        let ghost r0 = r.deep_view();
        r.push(v[i].duplicate());
        proof {
            assert(r.deep_view() =~~= r0 + seq![v@[i as int].deep_view()]);
            assert(r.deep_view() =~~= v.deep_view().take(i + 1));
        }
        i += 1;
    }
    proof {
        assert(v.deep_view().take(v@.len() as int) =~~= v.deep_view());
    }
    r
}

/// A chord is well formed when every key name in it is valid.
pub open spec fn chord_wf(c: Seq<Seq<char>>) -> bool {
    forall|i: int| 0 <= i < c.len() ==> valid_name(#[trigger] c[i])
}

/// The aggregation key: one chord, or an ordered pair of chords.
#[derive(Debug, Eq, PartialEq, Hash, Clone)]
pub enum CountItem {
    Single(Vec<KeyId>),
    Pair(Vec<KeyId>, Vec<KeyId>),
}

/// The mathematical value of a count key: chords as sequences of names.
pub enum ItemView {
    Single(Seq<Seq<char>>),
    Pair(Seq<Seq<char>>, Seq<Seq<char>>),
}

impl View for CountItem {
    type V = ItemView;

    open spec fn view(&self) -> ItemView {
        match self {
            CountItem::Single(c) => ItemView::Single(c.deep_view()),
            CountItem::Pair(a, b) => ItemView::Pair(a.deep_view(), b.deep_view()),
        }
    }
}

impl DeepView for CountItem {
    type V = ItemView;

    open spec fn deep_view(&self) -> ItemView {
        self.view()
    }
}

pub open spec fn item_wf(iv: ItemView) -> bool {
    match iv {
        ItemView::Single(c) => chord_wf(c),
        ItemView::Pair(a, b) => chord_wf(a) && chord_wf(b),
    }
}

/// Decoding failures: a segment that is not a valid key name, or a
/// token with more than two `", "`-separated parts.
#[derive(Debug, Clone)]
pub enum CodecError {
    UnknownKeyName(String),
    AmbiguousKey,
}

pub enum CodecErrV {
    UnknownKeyName(Seq<char>),
    AmbiguousKey,
}

impl View for CodecError {
    type V = CodecErrV;

    open spec fn view(&self) -> CodecErrV {
        match self {
            CodecError::UnknownKeyName(s) => CodecErrV::UnknownKeyName(s@),
            CodecError::AmbiguousKey => CodecErrV::AmbiguousKey,
        }
    }
}

// === encoding ===

/// A chord's token: its names joined by `+`; empty for the empty chord.
pub open spec fn encode_chord(c: Seq<Seq<char>>) -> Seq<char> {
    if c.len() == 0 {
        Seq::<char>::empty()
    } else {
        join1(c, '+')
    }
}

/// A count key's token.
pub open spec fn encode_item(iv: ItemView) -> Seq<char> {
    match iv {
        ItemView::Single(c) => encode_chord(c),
        ItemView::Pair(a, b) => encode_chord(a) + seq![',', ' '] + encode_chord(b),
    }
}

// === decoding, specified ===

/// Process the `+`-separated segments of one chord token: trim each,
/// drop empty ones, fail on the first segment that is not a valid name.
pub open spec fn parse_segs(segs: Seq<Seq<char>>) -> Result<Seq<Seq<char>>, Seq<char>>
    decreases segs.len(),
{
    if segs.len() == 0 {
        Ok(Seq::<Seq<char>>::empty())
    } else {
        let t = trim(segs[0]);
        if t.len() == 0 {
            parse_segs(segs.drop_first())
        } else if !valid_name(t) {
            Err(t)
        } else {
            match parse_segs(segs.drop_first()) {
                Ok(rest) => Ok(seq![t] + rest),
                Err(e) => Err(e),
            }
        }
    }
}

/// Parse one chord token.
pub open spec fn parse_chord_spec(s: Seq<char>) -> Result<Seq<Seq<char>>, Seq<char>> {
    parse_segs(split1(s, '+'))
}

/// Parse each `", "`-separated part as a chord, failing on the first
/// bad segment.
pub open spec fn parse_chords(parts: Seq<Seq<char>>) -> Result<Seq<Seq<Seq<char>>>, Seq<char>>
    decreases parts.len(),
{
    if parts.len() == 0 {
        Ok(Seq::<Seq<Seq<char>>>::empty())
    } else {
        match parse_chord_spec(parts[0]) {
            Err(e) => Err(e),
            Ok(c) => match parse_chords(parts.drop_first()) {
                Ok(rest) => Ok(seq![c] + rest),
                Err(e) => Err(e),
            },
        }
    }
}

/// Parse a count-key token: one part is a single, two parts are a pair,
/// more are ambiguous.
pub open spec fn parse_item_spec(s: Seq<char>) -> Result<ItemView, CodecErrV> {
    match parse_chords(split2(s, ',', ' ')) {
        Err(seg) => Err(CodecErrV::UnknownKeyName(seg)),
        Ok(chords) => if chords.len() == 1 {
            Ok(ItemView::Single(chords[0]))
        } else if chords.len() == 2 {
            Ok(ItemView::Pair(chords[0], chords[1]))
        } else {
            Err(CodecErrV::AmbiguousKey)
        },
    }
}

// === executable codec ===

/// Is `s` a usable key name?
pub fn is_valid_name_str(s: &str) -> (r: bool)
    ensures
        r == valid_name(s@),
{
    let n: usize = s.unicode_len();
    if n == 0 {
        return false;
    }
    let mut i: usize = 0;
    while i < n
        invariant
            i <= n,
            n == s@.len(),
            forall|j: int| 0 <= j < i ==> name_char(#[trigger] s@[j]),
        decreases n - i,
    {
        let c = s.get_char(i);
        if c == '+' || c == ',' || c == ':' || c == ' ' || c == '\t' || c == '\r' || c == '\n' {
            return false;
        }
        i += 1;
    }
    true
}

/// Encode a chord as its key names joined by `+`.
pub fn input_to_string(input: &Vec<KeyId>) -> (r: String)
    ensures
        r@ == encode_chord(input.deep_view()),
{
    let ghost dv = input.deep_view();
    let mut s = String::new();
    let mut i: usize = 0;
    while i < input.len()
        invariant
            i <= dv.len(),
            dv == input.deep_view(),
            dv.len() == input@.len(),
            i == 0 ==> s@ == Seq::<char>::empty(),
            i >= 1 ==> s@ == join1(dv.take(i as int), '+'),
        decreases input@.len() - i,
    {
        proof {
            assert(dv[i as int] == input@[i as int].deep_view());
        }
        if i > 0 {
            s.append("+");
            proof {
                reveal_strlit("+");
                assert("+"@ =~= seq!['+']);
            }
        }
        let k: &KeyId = &input[i];
        s.append(k.name());
        proof {
            if i == 0 {
                assert(dv.take(1) =~= seq![dv[0]]);
                assert(join1(dv.take(1), '+') == dv[0]);
                assert(s@ =~= dv[0]);
            } else {
                lemma_join1_snoc(dv.take(i as int), dv[i as int], '+');
                assert(dv.take(i as int).push(dv[i as int]) =~~= dv.take(i + 1));
                assert(s@ =~= join1(dv.take(i as int), '+') + seq!['+'] + dv[i as int]);
            }
        }
        i += 1;
    }
    proof {
        if dv.len() > 0 {
            assert(dv.take(dv.len() as int) =~~= dv);
        }
    }
    s
}

/// Encode a count key as its persisted token.
pub fn encode_count_item(item: &CountItem) -> (r: String)
    ensures
        r@ == encode_item(item@),
{
    match item {
        CountItem::Single(c) => input_to_string(c),
        CountItem::Pair(a, b) => {
            let mut s = input_to_string(a);
            s.append(", ");
            let sb = input_to_string(b);
            s.append(sb.as_str());
            proof {
                reveal_strlit(", ");
                assert(", "@ =~= seq![',', ' ']);
            }
            s
        },
    }
}

/// Parse one chord token: split on `+`, trim each segment, drop empty
/// segments, resolve the rest as key names.
pub fn parse_input_from_string(s: &str) -> (r: Result<Vec<KeyId>, CodecError>)
    ensures
        r matches Ok(v) ==> parse_chord_spec(s@) == Ok::<Seq<Seq<char>>, Seq<char>>(v.deep_view()),
        r matches Err(e) ==> e matches CodecError::UnknownKeyName(t) && parse_chord_spec(s@)
            == Err::<Seq<Seq<char>>, Seq<char>>(t@),
{
    let parts = split_str1(s, '+');
    let ghost sv = strs_view(parts@);
    let mut acc: Vec<KeyId> = Vec::new();
    let mut i: usize = 0;
    proof {
        assert(sv.skip(0) =~~= sv);
        match parse_segs(sv) {
            Ok(rest) => {
                assert(acc.deep_view() + rest =~~= rest);
            },
            Err(_) => {},
        }
    }
    while i < parts.len()
        invariant
            i <= parts@.len(),
            sv == strs_view(parts@),
            sv == split1(s@, '+'),
            sv.len() == parts@.len(),
            (match parse_segs(sv.skip(i as int)) {
                Ok(rest) => parse_segs(sv) == Ok::<Seq<Seq<char>>, Seq<char>>(
                    acc.deep_view() + rest,
                ),
                Err(e) => parse_segs(sv) == Err::<Seq<Seq<char>>, Seq<char>>(e),
            }),
        decreases parts@.len() - i,
    {
        let part: &str = parts[i];
        proof {
            assert(sv.skip(i as int)[0] == part@);
            assert(sv.skip(i as int).drop_first() =~~= sv.skip(i + 1));
        }
        let t = trim_str(part);
        let tn: usize = t.unicode_len();
        if tn == 0 {
            // an empty segment is dropped
        } else if !is_valid_name_str(t) {
            proof {
                assert(parse_segs(sv.skip(i as int)) == Err::<Seq<Seq<char>>, Seq<char>>(t@));
            }
            return Err(CodecError::UnknownKeyName(String::from_str(t)));
        } else {
            let ghost acc0 = acc.deep_view();
            acc.push(KeyId { name: String::from_str(t) });
            proof {
                assert(acc.deep_view() =~~= acc0 + seq![t@]);
                match parse_segs(sv.skip(i + 1)) {
                    Ok(rest) => {
                        assert(parse_segs(sv.skip(i as int)) == Ok::<Seq<Seq<char>>, Seq<char>>(
                            seq![t@] + rest,
                        ));
                        assert(acc0 + (seq![t@] + rest) =~~= (acc0 + seq![t@]) + rest);
                    },
                    Err(_) => {},
                }
            }
        }
        i += 1;
    }
    proof {
        assert(sv.skip(sv.len() as int) =~~= Seq::<Seq<char>>::empty());
        assert(acc.deep_view() + Seq::<Seq<char>>::empty() =~~= acc.deep_view());
    }
    Ok(acc)
}

/// Parse a count-key token into a count key.
pub fn parse_count_item(s: &str) -> (r: Result<CountItem, CodecError>)
    ensures
        r matches Ok(item) ==> parse_item_spec(s@) == Ok::<ItemView, CodecErrV>(item@),
        r matches Err(e) ==> parse_item_spec(s@) == Err::<ItemView, CodecErrV>(e@),
{
    let parts = split_str2(s, ',', ' ');
    let ghost pv = strs_view(parts@);
    proof {
        lemma_split2_len(s@, ',', ' ');
    }
    let mut chords: Vec<Vec<KeyId>> = Vec::new();
    let mut i: usize = 0;
    proof {
        assert(pv.skip(0) =~~= pv);
        match parse_chords(pv) {
            Ok(rest) => {
                assert(chords.deep_view() + rest =~~= rest);
            },
            Err(_) => {},
        }
    }
    while i < parts.len()
        invariant
            i <= parts@.len(),
            pv == strs_view(parts@),
            pv == split2(s@, ',', ' '),
            pv.len() == parts@.len(),
            chords@.len() == i,
            (match parse_chords(pv.skip(i as int)) {
                Ok(rest) => parse_chords(pv) == Ok::<Seq<Seq<Seq<char>>>, Seq<char>>(
                    chords.deep_view() + rest,
                ),
                Err(e) => parse_chords(pv) == Err::<Seq<Seq<Seq<char>>>, Seq<char>>(e),
            }),
        decreases parts@.len() - i,
    {
        let part: &str = parts[i];
        proof {
            assert(pv.skip(i as int)[0] == part@);
            assert(pv.skip(i as int).drop_first() =~~= pv.skip(i + 1));
        }
        match parse_input_from_string(part) {
            Err(e) => {
                proof {
                    assert(parse_item_spec(s@) == Err::<ItemView, CodecErrV>(e@));
                }
                return Err(e);
            },
            Ok(v) => {
                let ghost ch0 = chords.deep_view();
                chords.push(v);
                proof {
                    assert(chords.deep_view() =~~= ch0 + seq![v.deep_view()]);
                    match parse_chords(pv.skip(i + 1)) {
                        Ok(rest) => {
                            assert(ch0 + (seq![v.deep_view()] + rest) =~~= (ch0 + seq![
                                v.deep_view(),
                            ]) + rest);
                        },
                        Err(_) => {},
                    }
                }
            },
        }
        i += 1;
    }
    proof {
        assert(pv.skip(pv.len() as int) =~~= Seq::<Seq<char>>::empty());
        assert(chords.deep_view() + Seq::<Seq<Seq<char>>>::empty() =~~= chords.deep_view());
    }
    let ghost chv = chords.deep_view();
    if chords.len() == 1 {
        let c = chords.remove(0);
        proof {
            assert(c.deep_view() == chv[0]);
        }
        Ok(CountItem::Single(c))
    } else if chords.len() == 2 {
        let b = chords.remove(1);
        proof {
            assert(b.deep_view() == chv[1]);
        }
        let a = chords.remove(0);
        proof {
            assert(a.deep_view() == chv[0]);
        }
        Ok(CountItem::Pair(a, b))
    } else {
        Err(CodecError::AmbiguousKey)
    }
}

// === properties ===

/// Every character of a chord token is a name character or `+`; in
/// particular the token never contains `,`, `:` or a newline.
pub proof fn lemma_encode_chord_chars(c: Seq<Seq<char>>)
    requires
        chord_wf(c),
    ensures
        forall|i: int|
            0 <= i < encode_chord(c).len() ==> (name_char(#[trigger] encode_chord(c)[i])
                || encode_chord(c)[i] == '+'),
    decreases c.len(),
{
    if c.len() >= 2 {
        assert(chord_wf(c.drop_first())) by {
            assert(forall|k: int| 0 <= k < c.len() - 1 ==> c.drop_first()[k] == c[k + 1]);
        }
        lemma_encode_chord_chars(c.drop_first());
        let e = encode_chord(c);
        let h = c[0];
        let rest = encode_chord(c.drop_first());
        assert(e =~= h + seq!['+'] + rest);
        assert forall|i: int| 0 <= i < e.len() implies (name_char(#[trigger] e[i]) || e[i] == '+')
        by {
            if i < h.len() {
                assert(e[i] == h[i]);
            } else if i == h.len() {
                assert(e[i] == '+');
            } else {
                assert(e[i] == rest[i - h.len() - 1]);
            }
        }
    }
}

/// A well-formed single token never contains `,`; both tokens of a pair
/// are `,`-free, and no token contains `:` or a newline.
pub proof fn lemma_encode_item_chars(iv: ItemView)
    requires
        item_wf(iv),
    ensures
        free_of(encode_item(iv), ':'),
        free_of(encode_item(iv), '\n'),
    decreases 0int,
{
    match iv {
        ItemView::Single(c) => {
            lemma_encode_chord_chars(c);
        },
        ItemView::Pair(a, b) => {
            lemma_encode_chord_chars(a);
            lemma_encode_chord_chars(b);
            let e = encode_item(iv);
            let ea = encode_chord(a);
            let eb = encode_chord(b);
            assert forall|i: int| 0 <= i < e.len() implies e[i] != ':' && e[i] != '\n' by {
                if i < ea.len() {
                    assert(e[i] == ea[i]);
                } else if i == ea.len() {
                    assert(e[i] == ',');
                } else if i == ea.len() + 1 {
                    assert(e[i] == ' ');
                } else {
                    assert(e[i] == eb[i - ea.len() - 2]);
                }
            }
        },
    }
}

/// Whatever a chord token parses to is a well-formed chord.
proof fn lemma_parse_segs_wf(segs: Seq<Seq<char>>)
    ensures
        parse_segs(segs) matches Ok(r) ==> chord_wf(r),
    decreases segs.len(),
{
    if segs.len() > 0 {
        lemma_parse_segs_wf(segs.drop_first());
        let t = trim(segs[0]);
        if t.len() > 0 && valid_name(t) {
            match parse_segs(segs.drop_first()) {
                Ok(rest) => {
                    let r = seq![t] + rest;
                    assert forall|i: int| 0 <= i < r.len() implies valid_name(r[i]) by {
                        if i > 0 {
                            assert(r[i] == rest[i - 1]);
                        }
                    }
                },
                Err(_) => {},
            }
        }
    }
}

/// Whatever a count-key token parses to is a well-formed count key.
pub proof fn lemma_parse_item_wf(s: Seq<char>)
    ensures
        parse_item_spec(s) matches Ok(iv) ==> item_wf(iv),
{
    lemma_parse_chords_wf(split2(s, ',', ' '));
}

proof fn lemma_parse_chords_wf(parts: Seq<Seq<char>>)
    ensures
        parse_chords(parts) matches Ok(cs) ==> forall|i: int|
            0 <= i < cs.len() ==> chord_wf(#[trigger] cs[i]),
    decreases parts.len(),
{
    if parts.len() > 0 {
        lemma_parse_chords_wf(parts.drop_first());
        lemma_parse_segs_wf(split1(parts[0], '+'));
        match parse_chord_spec(parts[0]) {
            Ok(c) => {
                match parse_chords(parts.drop_first()) {
                    Ok(rest) => {
                        let cs = seq![c] + rest;
                        assert forall|i: int| 0 <= i < cs.len() implies chord_wf(cs[i]) by {
                            if i > 0 {
                                assert(cs[i] == rest[i - 1]);
                            }
                        }
                    },
                    Err(_) => {},
                }
            },
            Err(_) => {},
        }
    }
}

/// Valid-name segments parse back to themselves.
proof fn lemma_parse_segs_valid(segs: Seq<Seq<char>>)
    requires
        forall|k: int| 0 <= k < segs.len() ==> valid_name(#[trigger] segs[k]),
    ensures
        parse_segs(segs) == Ok::<Seq<Seq<char>>, Seq<char>>(segs),
    decreases segs.len(),
{
    if segs.len() > 0 {
        let h = segs[0];
        assert(valid_name(h));
        assert(!crate::text::is_ws(h[0]));
        assert(!crate::text::is_ws(h.last()));
        lemma_trim_id(h);
        assert(forall|k: int| 0 <= k < segs.len() - 1 ==> segs.drop_first()[k] == segs[k + 1]);
        lemma_parse_segs_valid(segs.drop_first());
        assert(seq![h] + segs.drop_first() =~~= segs);
    } else {
        assert(segs =~~= Seq::<Seq<char>>::empty());
    }
}

/// A well-formed chord's token parses back to the same chord.
pub proof fn lemma_chord_round_trip(c: Seq<Seq<char>>)
    requires
        chord_wf(c),
    ensures
        parse_chord_spec(encode_chord(c)) == Ok::<Seq<Seq<char>>, Seq<char>>(c),
{
    if c.len() == 0 {
        let e = encode_chord(c);
        assert(e.len() == 0);
        assert(split1(e, '+') =~~= seq![Seq::<char>::empty()]);
        assert(trim(Seq::<char>::empty()) == Seq::<char>::empty());
        assert(parse_segs(seq![Seq::<char>::empty()]) == parse_segs(
            seq![Seq::<char>::empty()].drop_first(),
        ));
        assert(seq![Seq::<char>::empty()].drop_first() =~~= Seq::<Seq<char>>::empty());
        assert(c =~~= Seq::<Seq<char>>::empty());
    } else {
        assert(forall|k: int|
            0 <= k < c.len() ==> free_of(#[trigger] c[k], '+')) by {
            assert(forall|k: int, j: int|
                0 <= k < c.len() && 0 <= j < c[k].len() ==> name_char(#[trigger] c[k][j]));
        }
        lemma_split1_join1(c, '+');
        lemma_parse_segs_valid(c);
    }
}

/// Round trip: any well-formed count key, encoded and decoded, comes
/// back unchanged. This holds for every key built from names free of
/// the `+` and `", "` delimiters, which validity guarantees.
pub proof fn lemma_codec_round_trip(iv: ItemView)
    requires
        item_wf(iv),
    ensures
        parse_item_spec(encode_item(iv)) == Ok::<ItemView, CodecErrV>(iv),
{
    match iv {
        ItemView::Single(c) => {
            let e = encode_item(iv);
            lemma_encode_chord_chars(c);
            assert(no_match2(e, ',', ' ')) by {
                assert(forall|j: int| 0 <= j < e.len() ==> #[trigger] e[j] != ',');
            }
            lemma_split2_no_sep(e, ',', ' ');
            lemma_chord_round_trip(c);
            assert(split2(e, ',', ' ') == seq![e]);
            assert(parse_chords(seq![e]) == Ok::<Seq<Seq<Seq<char>>>, Seq<char>>(seq![c])) by {
                assert(seq![e][0] == e);
                assert(seq![e].drop_first() =~~= Seq::<Seq<char>>::empty());
                assert(parse_chords(Seq::<Seq<char>>::empty()) == Ok::<
                    Seq<Seq<Seq<char>>>,
                    Seq<char>,
                >(Seq::<Seq<Seq<char>>>::empty()));
                assert(seq![c] + Seq::<Seq<Seq<char>>>::empty() =~~= seq![c]);
            }
        },
        ItemView::Pair(a, b) => {
            let ea = encode_chord(a);
            let eb = encode_chord(b);
            let e = encode_item(iv);
            lemma_encode_chord_chars(a);
            lemma_encode_chord_chars(b);
            assert(no_match2(ea, ',', ' ')) by {
                assert(forall|j: int| 0 <= j < ea.len() ==> #[trigger] ea[j] != ',');
            }
            assert(no_match2(eb, ',', ' ')) by {
                assert(forall|j: int| 0 <= j < eb.len() ==> #[trigger] eb[j] != ',');
            }
            lemma_split2_sep_at(ea, eb, ',', ' ');
            lemma_split2_no_sep(eb, ',', ' ');
            assert(split2(e, ',', ' ') == seq![ea] + seq![eb]);
            lemma_chord_round_trip(a);
            lemma_chord_round_trip(b);
            let parts = seq![ea] + seq![eb];
            assert(parts[0] == ea);
            assert(parts.drop_first() =~~= seq![eb]);
            assert(seq![eb].drop_first() =~~= Seq::<Seq<char>>::empty());
            assert(parse_chords(seq![eb]) == Ok::<Seq<Seq<Seq<char>>>, Seq<char>>(seq![b])) by {
                assert(seq![eb][0] == eb);
                assert(parse_chords(Seq::<Seq<char>>::empty()) == Ok::<
                    Seq<Seq<Seq<char>>>,
                    Seq<char>,
                >(Seq::<Seq<Seq<char>>>::empty()));
                assert(seq![b] + Seq::<Seq<Seq<char>>>::empty() =~~= seq![b]);
            }
            assert(parse_chords(parts) == Ok::<Seq<Seq<Seq<char>>>, Seq<char>>(seq![a, b])) by {
                assert(seq![a] + seq![b] =~~= seq![a, b]);
            }
            assert(parse_item_spec(e) == Ok::<ItemView, CodecErrV>(iv)) by {
                assert(seq![a, b][0] == a);
                assert(seq![a, b][1] == b);
            }
        },
    }
}

} // verus!
