//! The statistics store: the counts table with its config header, its
//! text serialization, and the compatibility rules applied on load.
//!
//! The persisted form is a flat text map: a `config:` block of three
//! indented fields first, then one `token: count` line per count key.
//! Loading parses that form back; saving rewrites the whole map. The
//! mode flags of a pre-existing file must match the requested flags
//! exactly; a differing format version is recoverable, after an
//! explicit confirmation.

use vstd::prelude::*;
use vstd::string::{StrSliceExecFns, StringExecFns};

use crate::codec::{
    encode_count_item, encode_item, item_wf, lemma_codec_round_trip, lemma_encode_item_chars,
    lemma_parse_item_wf, parse_count_item, parse_item_spec, CodecErrV, CodecError, CountItem,
    ItemView,
};
use crate::numbers::{
    dec_rep, lemma_dec_rep, lemma_u32_round_trip, parse_u32, parse_u32_spec, u32_to_string,
};
use crate::table::{empty_counts, table_model, CountTable};
use crate::text::{
    find2, free_of, has_prefix, lemma_find2, lemma_split1_len, lemma_split1_parts_free,
    lemma_split1_sep_at, split1, split_str1, str_eq, strs_view,
};

verus! {

/// The persisted header: the mode flags a statistics file was created
/// with, and its format version.
#[derive(Debug, Clone)]
pub struct Config {
    pub pairs: bool,
    pub no_chords: bool,
    pub version: String,
}

/// The mathematical value of a config.
pub struct ConfigView {
    pub pairs: bool,
    pub no_chords: bool,
    pub version: Seq<char>,
}

impl View for Config {
    type V = ConfigView;

    open spec fn view(&self) -> ConfigView {
        ConfigView { pairs: self.pairs, no_chords: self.no_chords, version: self.version@ }
    }
}

impl Config {
    /// A fresh config carrying the requested flags and current version.
    pub fn new(pairs: bool, no_chords: bool, version: String) -> (r: Self)
        ensures
            r@ == (ConfigView { pairs, no_chords, version: version@ }),
    {
        Self { pairs, no_chords, version }
    }
}

pub open spec fn opt_config_view(c: Option<Config>) -> Option<ConfigView> {
    match c {
        Some(cfg) => Some(cfg@),
        None => None,
    }
}

/// The view of a config known to be present.
pub open spec fn config_view_of(c: Option<Config>) -> ConfigView
    recommends
        c is Some,
{
    match c {
        Some(cfg) => cfg@,
        None => ConfigView { pairs: false, no_chords: false, version: Seq::<char>::empty() },
    }
}

/// Failures of loading a persisted statistics file.
#[derive(Debug, Clone)]
pub enum StoreError {
    MalformedHeader,
    MalformedEntry(String),
    UnknownKeyName(String),
    AmbiguousKey,
}

pub enum StoreErrV {
    MalformedHeader,
    MalformedEntry(Seq<char>),
    UnknownKeyName(Seq<char>),
    AmbiguousKey,
}

impl View for StoreError {
    type V = StoreErrV;

    open spec fn view(&self) -> StoreErrV {
        match self {
            StoreError::MalformedHeader => StoreErrV::MalformedHeader,
            StoreError::MalformedEntry(l) => StoreErrV::MalformedEntry(l@),
            StoreError::UnknownKeyName(t) => StoreErrV::UnknownKeyName(t@),
            StoreError::AmbiguousKey => StoreErrV::AmbiguousKey,
        }
    }
}

// === the rendered form ===

pub open spec fn render_bool(b: bool) -> Seq<char> {
    if b {
        "true"@
    } else {
        "false"@
    }
}

/// The header block: `config:` and its three indented fields.
pub open spec fn render_config(c: ConfigView) -> Seq<char> {
    "config:"@ + seq!['\n'] + "  pairs: "@ + render_bool(c.pairs) + seq!['\n'] + "  no_chords: "@
        + render_bool(c.no_chords) + seq!['\n'] + "  version: "@ + c.version + seq!['\n']
}

/// One entry's line, without its terminating newline.
pub open spec fn entry_line(e: (ItemView, u32)) -> Seq<char> {
    encode_item(e.0) + seq![':', ' '] + dec_rep(e.1 as nat)
}

pub open spec fn render_entry(e: (ItemView, u32)) -> Seq<char> {
    entry_line(e) + seq!['\n']
}

pub open spec fn render_entries(es: Seq<(ItemView, u32)>) -> Seq<char>
    decreases es.len(),
{
    if es.len() == 0 {
        Seq::<char>::empty()
    } else {
        render_entries(es.drop_last()) + render_entry(es.last())
    }
}

/// The whole persisted text: header, then one line per entry.
pub open spec fn render_stats(c: ConfigView, es: Seq<(ItemView, u32)>) -> Seq<char> {
    render_config(c) + render_entries(es)
}

// === the parsed form ===

pub open spec fn parse_bool_line(l: Seq<char>, t: Seq<char>, f: Seq<char>) -> Option<bool> {
    if l == t {
        Some(true)
    } else if l == f {
        Some(false)
    } else {
        None
    }
}

/// Parse the three field lines that follow `config:`.
pub open spec fn parse_header(l1: Seq<char>, l2: Seq<char>, l3: Seq<char>) -> Option<ConfigView> {
    let vp = "  version: "@;
    match parse_bool_line(l1, "  pairs: true"@, "  pairs: false"@) {
        None => None,
        Some(pairs) => match parse_bool_line(l2, "  no_chords: true"@, "  no_chords: false"@) {
            None => None,
            Some(no_chords) => if l3.len() >= vp.len() && l3.take(vp.len() as int) == vp {
                Some(ConfigView { pairs, no_chords, version: l3.skip(vp.len() as int) })
            } else {
                None
            },
        },
    }
}

/// Parse one `token: count` line.
pub open spec fn parse_entry_line(l: Seq<char>) -> Result<(ItemView, u32), StoreErrV> {
    let i = find2(l, ':', ' ');
    if i < 0 {
        Err(StoreErrV::MalformedEntry(l))
    } else {
        match parse_item_spec(l.take(i)) {
            Err(CodecErrV::UnknownKeyName(t)) => Err(StoreErrV::UnknownKeyName(t)),
            Err(CodecErrV::AmbiguousKey) => Err(StoreErrV::AmbiguousKey),
            Ok(item) => match parse_u32_spec(l.skip(i + 2)) {
                None => Err(StoreErrV::MalformedEntry(l)),
                Some(n) => Ok((item, n)),
            },
        }
    }
}

/// Parse the entry lines, skipping empty ones.
pub open spec fn parse_entry_lines(lines: Seq<Seq<char>>) -> Result<
    Seq<(ItemView, u32)>,
    StoreErrV,
>
    decreases lines.len(),
{
    if lines.len() == 0 {
        Ok(Seq::<(ItemView, u32)>::empty())
    } else if lines[0].len() == 0 {
        parse_entry_lines(lines.drop_first())
    } else {
        match parse_entry_line(lines[0]) {
            Err(e) => Err(e),
            Ok(p) => match parse_entry_lines(lines.drop_first()) {
                Ok(rest) => Ok(seq![p] + rest),
                Err(e) => Err(e),
            },
        }
    }
}

/// Parse a whole persisted file: an optional header block first (it
/// must come first, as the serializer writes it), then the entries.
pub open spec fn parse_stats(text: Seq<char>) -> Result<
    (Option<ConfigView>, Seq<(ItemView, u32)>),
    StoreErrV,
> {
    let lines = split1(text, '\n');
    if lines[0] == "config:"@ {
        if lines.len() >= 4 {
            match parse_header(lines[1], lines[2], lines[3]) {
                None => Err(StoreErrV::MalformedHeader),
                Some(cfg) => match parse_entry_lines(lines.skip(4)) {
                    Ok(es) => Ok((Some(cfg), es)),
                    Err(e) => Err(e),
                },
            }
        } else {
            Err(StoreErrV::MalformedHeader)
        }
    } else {
        match parse_entry_lines(lines) {
            Ok(es) => Ok((None, es)),
            Err(e) => Err(e),
        }
    }
}

/// The map a list of parsed entries builds, later entries overwriting
/// earlier ones with the same key.
pub open spec fn entries_to_map(es: Seq<(ItemView, u32)>) -> Map<ItemView, u32>
    decreases es.len(),
{
    if es.len() == 0 {
        Map::<ItemView, u32>::empty()
    } else {
        entries_to_map(es.drop_last()).insert(es.last().0, es.last().1)
    }
}

/// `es` enumerates exactly the entries of `m`: every listed pair is in
/// `m`, and every key of `m` is listed.
pub open spec fn lists_map(es: Seq<(ItemView, u32)>, m: Map<ItemView, u32>) -> bool {
    &&& forall|i: int| 0 <= i < es.len() ==> m.contains_pair((#[trigger] es[i]).0, es[i].1)
    &&& forall|k: ItemView|
        m.dom().contains(k) ==> exists|i: int| 0 <= i < es.len() && (#[trigger] es[i]).0 == k
}

// === the store ===

/// The in-memory statistics: the optional config header and the table
/// of counters.
pub struct KeyCounts {
    pub config: Option<Config>,
    pub map: CountTable,
}

impl KeyCounts {
    /// Every stored key is well formed, and a present config's version
    /// never holds a newline, so the store can always be persisted and
    /// read back.
    pub open spec fn wf(&self) -> bool {
        &&& forall|k: ItemView|
            #[trigger] table_model(self.map).dom().contains(k) ==> item_wf(k)
        &&& match self.config {
            Some(c) => free_of(c@.version, '\n'),
            None => true,
        }
    }

    /// An empty store with no config.
    pub fn new() -> (r: KeyCounts)
        ensures
            r.config is None,
            table_model(r.map) == empty_counts(),
            r.wf(),
    {
        KeyCounts { config: None, map: CountTable::new() }
    }

    /// The stored count of one key, if present.
    pub fn count_of(&self, item: &CountItem) -> (r: Option<u32>)
        ensures
            r == (if table_model(self.map).dom().contains(item@) {
                Some(table_model(self.map)[item@])
            } else {
                None::<u32>
            }),
    {
        self.map.get_count(item)
    }

    /// How many distinct keys are stored.
    pub fn len(&self) -> (n: usize)
        ensures
            n == table_model(self.map).dom().len(),
    {
        self.map.len()
    }

    /// Record one observation of a key: its counter grows by one
    /// (saturating at the counter's maximum), and nothing else changes.
    /// Returns the new count.
    pub fn record(&mut self, item: CountItem) -> (n: u32)
        requires
            old(self).wf(),
            item_wf(item@),
        ensures
            final(self).wf(),
            final(self).config == old(self).config,
            table_model(final(self).map) == table_model(old(self).map).insert(item@, n),
            n == (if table_model(old(self).map).dom().contains(item@) {
                if table_model(old(self).map)[item@] < u32::MAX {
                    (table_model(old(self).map)[item@] + 1) as u32
                } else {
                    u32::MAX
                }
            } else {
                1u32
            }),
    {
        let ghost m0 = table_model(self.map);
        let n: u32 = match self.map.get_count(&item) {
            Some(c) => if c < u32::MAX {
                c + 1
            } else {
                c
            },
            None => 1,
        };
        let ghost iv = item@;
        self.map.set_count(item, n);
        proof {
            assert forall|k: ItemView|
                #[trigger] table_model(self.map).dom().contains(k) implies item_wf(k) by {
                if k != iv {
                    assert(m0.dom().contains(k));
                }
            }
        }
        n
    }

    /// Serialize the store to its persisted text: the config header
    /// followed by one line per entry, in the table's iteration order.
    pub fn serialize(&self) -> (r: String)
        requires
            self.wf(),
            self.config is Some,
        ensures
            exists|es: Seq<(ItemView, u32)>|
                #[trigger] lists_map(es, table_model(self.map)) && r@ == render_stats(
                    config_view_of(self.config),
                    es,
                ),
    {
        let cfg: &Config = match &self.config {
            Some(c) => c,
            None => vstd::pervasive::unreached(),
        };
        let ghost cv = config_view_of(self.config);
        let mut s = String::new();
        s.append("config:\n  pairs: ");
        s.append(bool_str(cfg.pairs));
        s.append("\n  no_chords: ");
        s.append(bool_str(cfg.no_chords));
        s.append("\n  version: ");
        s.append(cfg.version.as_str());
        s.append("\n");
        proof {
            reveal_strlit("config:\n  pairs: ");
            reveal_strlit("\n  no_chords: ");
            reveal_strlit("\n  version: ");
            reveal_strlit("\n");
            reveal_strlit("config:");
            reveal_strlit("  pairs: ");
            reveal_strlit("  no_chords: ");
            reveal_strlit("  version: ");
            assert(s@ =~= render_config(cv));
        }
        let entries = self.map.entries();
        let ghost evs = entries@.map_values(|e: (CountItem, u32)| (e.0@, e.1));
        let mut i: usize = 0;
        while i < entries.len()
            invariant
                i <= entries@.len(),
                evs == entries@.map_values(|e: (CountItem, u32)| (e.0@, e.1)),
                evs.len() == entries@.len(),
                s@ == render_config(cv) + render_entries(evs.take(i as int)),
            decreases entries@.len() - i,
        {
            let e: &(CountItem, u32) = &entries[i];
            let tok = encode_count_item(&e.0);
            s.append(tok.as_str());
            s.append(": ");
            let num = u32_to_string(e.1);
            s.append(num.as_str());
            s.append("\n");
            proof {
                reveal_strlit(": ");
                reveal_strlit("\n");
                assert(": "@ =~= seq![':', ' ']);
                assert("\n"@ =~= seq!['\n']);
                assert(evs[i as int] == (entries@[i as int].0@, entries@[i as int].1));
                assert(evs.take(i + 1).drop_last() =~= evs.take(i as int));
                assert(evs.take(i + 1).last() == evs[i as int]);
                assert(s@ =~= render_config(cv) + render_entries(evs.take(i + 1)));
            }
            i += 1;
        }
        proof {
            assert(evs.take(evs.len() as int) =~= evs);
            assert(lists_map(evs, table_model(self.map))) by {
                assert forall|k: ItemView| table_model(self.map).dom().contains(k) implies exists|
                    j: int,
                |
                    0 <= j < evs.len() && (#[trigger] evs[j]).0 == k by {
                    let j = choose|j: int|
                        0 <= j < entries@.len() && (#[trigger] entries@[j]).0@ == k;
                    assert(evs[j].0 == k);
                }
            }
        }
        s
    }

    /// Parse a persisted text back into a store. The header, if the
    /// first line opens one, must be complete and well formed; every
    /// other non-empty line must be a `token: count` entry.
    pub fn deserialize(text: &str) -> (r: Result<KeyCounts, StoreError>)
        ensures
            r matches Ok(kc) ==> {
                &&& kc.wf()
                &&& parse_stats(text@) matches Ok(p) && opt_config_view(kc.config) == p.0
                    && table_model(kc.map) == entries_to_map(p.1)
            },
            r matches Err(e) ==> parse_stats(text@) == Err::<
                (Option<ConfigView>, Seq<(ItemView, u32)>),
                StoreErrV,
            >(e@),
    {
        let lines = split_str1(text, '\n');
        let ghost lv = strs_view(lines@);
        proof {
            lemma_split1_len(text@, '\n');
            lemma_split1_parts_free(text@, '\n');
        }
        let n_lines = lines.len();
        let mut config: Option<Config> = None;
        let mut start: usize = 0;
        if str_eq(lines[0], "config:") {
            proof {
                assert(lv[0] == "config:"@);
            }
            if n_lines < 4 {
                proof {
                    assert(parse_stats(text@) == Err::<
                        (Option<ConfigView>, Seq<(ItemView, u32)>),
                        StoreErrV,
                    >(StoreErrV::MalformedHeader));
                }
                return Err(StoreError::MalformedHeader);
            }
            let l1: &str = lines[1];
            let l2: &str = lines[2];
            let l3: &str = lines[3];
            proof {
                assert(lv[1] == l1@ && lv[2] == l2@ && lv[3] == l3@);
            }
            let pairs: bool = if str_eq(l1, "  pairs: true") {
                true
            } else if str_eq(l1, "  pairs: false") {
                false
            } else {
                proof {
                    assert(parse_header(lv[1], lv[2], lv[3]) is None);
                    assert(parse_stats(text@) == Err::<
                        (Option<ConfigView>, Seq<(ItemView, u32)>),
                        StoreErrV,
                    >(StoreErrV::MalformedHeader));
                }
                return Err(StoreError::MalformedHeader);
            };
            let no_chords: bool = if str_eq(l2, "  no_chords: true") {
                true
            } else if str_eq(l2, "  no_chords: false") {
                false
            } else {
                proof {
                    assert(parse_header(lv[1], lv[2], lv[3]) is None);
                    assert(parse_stats(text@) == Err::<
                        (Option<ConfigView>, Seq<(ItemView, u32)>),
                        StoreErrV,
                    >(StoreErrV::MalformedHeader));
                }
                return Err(StoreError::MalformedHeader);
            };
            let vp = "  version: ";
            if !has_prefix(l3, vp) {
                proof {
                    assert(parse_header(lv[1], lv[2], lv[3]) is None);
                    assert(parse_stats(text@) == Err::<
                        (Option<ConfigView>, Seq<(ItemView, u32)>),
                        StoreErrV,
                    >(StoreErrV::MalformedHeader));
                }
                return Err(StoreError::MalformedHeader);
            }
            let vplen = vp.unicode_len();
            let n3 = l3.unicode_len();
            let version = l3.substring_char(vplen, n3);
            proof {
                assert(version@ =~= l3@.skip(vp@.len() as int));
                assert(l3@.take(vp@.len() as int) =~= vp@);
            }
            config = Some(Config { pairs, no_chords, version: String::from_str(version) });
            start = 4;
            proof {
                assert(parse_header(lv[1], lv[2], lv[3]) == Some(config_view_of(config)));
                assert(free_of(lv[3], '\n'));
                assert(free_of(config_view_of(config).version, '\n')) by {
                    assert(forall|j: int|
                        0 <= j < lv[3].skip(vp@.len() as int).len() ==> lv[3].skip(
                            vp@.len() as int,
                        )[j] == lv[3][j + vp@.len()]);
                }
            }
        }
        let ghost lv_entries = lv.skip(start as int);
        let mut table = CountTable::new();
        let ghost mut es: Seq<(ItemView, u32)> = Seq::<(ItemView, u32)>::empty();
        let mut i: usize = start;
        proof {
            assert(lv.skip(start as int) == lv_entries);
            match parse_entry_lines(lv_entries) {
                Ok(rest) => {
                    assert(es + rest =~= rest);
                },
                Err(_) => {},
            }
            assert(entries_to_map(es) =~= empty_counts());
        }
        while i < n_lines
            invariant
                start <= i <= n_lines,
                n_lines == lv.len(),
                lv == split1(text@, '\n'),
                lv == strs_view(lines@),
                lv.len() == lines@.len(),
                lv_entries == lv.skip(start as int),
                start == 0 || start == 4,
                start == 4 ==> lv.len() >= 4 && lv[0] == "config:"@ && config is Some
                    && parse_header(lv[1], lv[2], lv[3]) == Some(config_view_of(config))
                    && free_of(config_view_of(config).version, '\n'),
                start == 0 ==> lv[0] != "config:"@ && config is None,
                table_model(table) == entries_to_map(es),
                forall|k: ItemView| #[trigger] table_model(table).dom().contains(k) ==> item_wf(k),
                (match parse_entry_lines(lv.skip(i as int)) {
                    Ok(rest) => parse_entry_lines(lv_entries) == Ok::<
                        Seq<(ItemView, u32)>,
                        StoreErrV,
                    >(es + rest),
                    Err(e) => parse_entry_lines(lv_entries) == Err::<
                        Seq<(ItemView, u32)>,
                        StoreErrV,
                    >(e),
                }),
            decreases n_lines - i,
        {
            let line: &str = lines[i];
            proof {
                assert(lv.skip(i as int)[0] == line@);
                assert(lv.skip(i as int).drop_first() =~~= lv.skip(i + 1));
            }
            let ln = line.unicode_len();
            if ln == 0 {
                // an empty line carries no entry
            } else {
                match crate::text::find_sep2(line, ':', ' ') {
                    None => {
                        let e = StoreError::MalformedEntry(String::from_str(line));
                        proof {
                            assert(parse_entry_line(line@) == Err::<(ItemView, u32), StoreErrV>(
                                e@,
                            ));
                            assert(parse_entry_lines(lv.skip(i as int)) == Err::<
                                Seq<(ItemView, u32)>,
                                StoreErrV,
                            >(e@));
                            lemma_parse_stats_shape(text@, start as int, opt_config_view(config));
                        }
                        return Err(e);
                    },
                    Some(j) => {
                        proof {
                            lemma_find2(line@, ':', ' ');
                        }
                        let tok = line.substring_char(0, j);
                        let rest = line.substring_char(j + 2, ln);
                        proof {
                            assert(tok@ =~= line@.take(j as int));
                            assert(rest@ =~= line@.skip(j + 2));
                        }
                        match parse_count_item(tok) {
                            Err(CodecError::UnknownKeyName(t)) => {
                                let e = StoreError::UnknownKeyName(t);
                                proof {
                                    assert(parse_entry_line(line@) == Err::<
                                        (ItemView, u32),
                                        StoreErrV,
                                    >(e@));
                                    assert(parse_entry_lines(lv.skip(i as int)) == Err::<
                                        Seq<(ItemView, u32)>,
                                        StoreErrV,
                                    >(e@));
                                    lemma_parse_stats_shape(
                                        text@,
                                        start as int,
                                        opt_config_view(config),
                                    );
                                }
                                return Err(e);
                            },
                            Err(CodecError::AmbiguousKey) => {
                                let e = StoreError::AmbiguousKey;
                                proof {
                                    assert(parse_entry_line(line@) == Err::<
                                        (ItemView, u32),
                                        StoreErrV,
                                    >(e@));
                                    assert(parse_entry_lines(lv.skip(i as int)) == Err::<
                                        Seq<(ItemView, u32)>,
                                        StoreErrV,
                                    >(e@));
                                    lemma_parse_stats_shape(
                                        text@,
                                        start as int,
                                        opt_config_view(config),
                                    );
                                }
                                return Err(e);
                            },
                            Ok(item) => {
                                match parse_u32(rest) {
                                    None => {
                                        let e = StoreError::MalformedEntry(
                                            String::from_str(line),
                                        );
                                        proof {
                                            assert(parse_entry_line(line@) == Err::<
                                                (ItemView, u32),
                                                StoreErrV,
                                            >(e@));
                                            assert(parse_entry_lines(lv.skip(i as int)) == Err::<
                                                Seq<(ItemView, u32)>,
                                                StoreErrV,
                                            >(e@));
                                            lemma_parse_stats_shape(
                                                text@,
                                                start as int,
                                                opt_config_view(config),
                                            );
                                        }
                                        return Err(e);
                                    },
                                    Some(cnt) => {
                                        proof {
                                            lemma_parse_item_wf(tok@);
                                        }
                                        let ghost iv = item@;
                                        let ghost m0 = table_model(table);
                                        table.set_count(item, cnt);
                                        proof {
                                            let p = (iv, cnt);
                                            let es0 = es;
                                            es = es.push(p);
                                            assert(es.drop_last() =~= es0);
                                            assert(es.last() == p);
                                            assert(entries_to_map(es) == entries_to_map(
                                                es0,
                                            ).insert(iv, cnt));
                                            assert forall|k: ItemView| #[trigger] table_model(
                                                table,
                                            ).dom().contains(k) implies item_wf(k) by {
                                                if k != iv {
                                                    assert(m0.dom().contains(k));
                                                }
                                            }
                                            match parse_entry_lines(lv.skip(i + 1)) {
                                                Ok(rest2) => {
                                                    assert(es0 + (seq![p] + rest2) =~= es + rest2);
                                                },
                                                Err(_) => {},
                                            }
                                        }
                                    },
                                }
                            },
                        }
                    },
                }
            }
            i += 1;
        }
        proof {
            assert(lv.skip(n_lines as int) =~~= Seq::<Seq<char>>::empty());
            assert(es + Seq::<(ItemView, u32)>::empty() =~= es);
            assert(parse_entry_lines(lv_entries) == Ok::<Seq<(ItemView, u32)>, StoreErrV>(es));
            lemma_parse_stats_shape(text@, start as int, opt_config_view(config));
            assert(parse_stats(text@) == Ok::<
                (Option<ConfigView>, Seq<(ItemView, u32)>),
                StoreErrV,
            >((opt_config_view(config), es)));
        }
        Ok(KeyCounts { config, map: table })
    }
}

/// How `parse_stats` decomposes once the header (or its absence) is
/// settled: what remains is parsing the entry lines after `start`.
proof fn lemma_parse_stats_shape(text: Seq<char>, start: int, cfg: Option<ConfigView>)
    requires
        start == 0 || start == 4,
        start == 4 ==> {
            &&& split1(text, '\n').len() >= 4
            &&& split1(text, '\n')[0] == "config:"@
            &&& (cfg matches Some(cv) && parse_header(
                split1(text, '\n')[1],
                split1(text, '\n')[2],
                split1(text, '\n')[3],
            ) == Some(cv))
        },
        start == 0 ==> split1(text, '\n')[0] != "config:"@ && cfg is None,
    ensures
        parse_stats(text) == (match parse_entry_lines(split1(text, '\n').skip(start)) {
            Ok(es) => Ok::<(Option<ConfigView>, Seq<(ItemView, u32)>), StoreErrV>((cfg, es)),
            Err(e) => Err::<(Option<ConfigView>, Seq<(ItemView, u32)>), StoreErrV>(e),
        }),
{
    if start == 0 {
        assert(split1(text, '\n').skip(0) =~~= split1(text, '\n'));
    }
}

/// The text of a flag value.
fn bool_str(b: bool) -> (r: &'static str)
    ensures
        r@ == render_bool(b),
{
    if b {
        "true"
    } else {
        "false"
    }
}

// === compatibility checks ===

/// A fatal disagreement between the requested mode flags and the flags
/// a pre-existing file was created with, naming the offending flag and
/// both values.
#[derive(Debug, Clone, Copy, PartialEq, Eq, Structural)]
pub enum ConfigMismatch {
    Pairs { requested: bool, stored: bool },
    NoChords { requested: bool, stored: bool },
}

/// Both mode flags of a loaded config must match the requested ones
/// exactly; the first mismatch is reported, pair counting first.
pub fn check_config(config: &Config, pairs: bool, no_chords: bool) -> (r: Result<
    (),
    ConfigMismatch,
>)
    ensures
        r is Ok <==> (config@.pairs == pairs && config@.no_chords == no_chords),
        config@.pairs != pairs ==> r == Err::<(), ConfigMismatch>(
            ConfigMismatch::Pairs { requested: pairs, stored: config@.pairs },
        ),
        config@.pairs == pairs && config@.no_chords != no_chords ==> r == Err::<(), ConfigMismatch>(
            ConfigMismatch::NoChords { requested: no_chords, stored: config@.no_chords },
        ),
{
    if config.pairs != pairs {
        Err(ConfigMismatch::Pairs { requested: pairs, stored: config.pairs })
    } else if config.no_chords != no_chords {
        Err(ConfigMismatch::NoChords { requested: no_chords, stored: config.no_chords })
    } else {
        Ok(())
    }
}

/// Combine a loaded config (or none) with the requested flags: absent
/// configs are created fresh with the current version; present ones
/// must match the requested flags and are kept as loaded.
pub fn reconcile(loaded: Option<Config>, pairs: bool, no_chords: bool, current: &str) -> (r: Result<
    Config,
    ConfigMismatch,
>)
    ensures
        loaded is None ==> (r matches Ok(c) && c@ == (ConfigView {
            pairs,
            no_chords,
            version: current@,
        })),
        loaded matches Some(lc) ==> {
            &&& (lc@.pairs == pairs && lc@.no_chords == no_chords) ==> (r matches Ok(c) && c@
                == lc@)
            &&& lc@.pairs != pairs ==> r == Err::<Config, ConfigMismatch>(
                ConfigMismatch::Pairs { requested: pairs, stored: lc@.pairs },
            )
            &&& lc@.pairs == pairs && lc@.no_chords != no_chords ==> r == Err::<
                Config,
                ConfigMismatch,
            >(ConfigMismatch::NoChords { requested: no_chords, stored: lc@.no_chords })
        },
{
    match loaded {
        None => Ok(Config::new(pairs, no_chords, String::from_str(current))),
        Some(cfg) => match check_config(&cfg, pairs, no_chords) {
            Ok(()) => Ok(cfg),
            Err(m) => Err(m),
        },
    }
}

/// Does the loaded config's format version differ from the current one?
pub fn version_drifted(config: &Config, current: &str) -> (r: bool)
    ensures
        r == (config@.version != current@),
{
    !str_eq(config.version.as_str(), current)
}

/// Overwrite the stored format version with the current one, keeping
/// the mode flags; done only after drift was confirmed or forced.
pub fn upgrade_version(config: &mut Config, current: &str)
    ensures
        final(config)@.pairs == old(config)@.pairs,
        final(config)@.no_chords == old(config)@.no_chords,
        final(config)@.version == current@,
{
    config.version = String::from_str(current);
}

/// Is a confirmation keystroke an assent? Only the byte values of `y`
/// and `Y` count as one.
pub fn is_affirmative(c: u8) -> (r: bool)
    ensures
        r == (c == 121u8 || c == 89u8),
{
    c == 121u8 || c == 89u8
}

// === the save/load round trip ===

/// The rendered entries unfold from the front as well.
proof fn lemma_render_entries_front(es: Seq<(ItemView, u32)>)
    requires
        es.len() >= 1,
    ensures
        render_entries(es) == render_entry(es[0]) + render_entries(es.drop_first()),
    decreases es.len(),
{
    if es.len() == 1 {
        assert(es.drop_last() =~= Seq::<(ItemView, u32)>::empty());
        assert(es.drop_first() =~= Seq::<(ItemView, u32)>::empty());
        assert(es.last() == es[0]);
        assert(render_entries(es) =~= render_entry(es[0]) + render_entries(es.drop_first()));
    } else {
        let front = es.drop_last();
        lemma_render_entries_front(front);
        assert(front[0] == es[0]);
        assert(front.drop_first() =~= es.drop_first().drop_last());
        assert(es.drop_first().last() == es.last());
        assert(es.drop_first().len() >= 1);
        assert(render_entries(es) =~= render_entry(es[0]) + render_entries(es.drop_first()));
    }
}

/// An entry's line is non-empty and free of newlines.
proof fn lemma_entry_line_props(e: (ItemView, u32))
    requires
        item_wf(e.0),
    ensures
        free_of(entry_line(e), '\n'),
        entry_line(e).len() > 0,
{
    lemma_encode_item_chars(e.0);
    lemma_dec_rep(e.1 as nat);
    let l = entry_line(e);
    let tok = encode_item(e.0);
    let digits = dec_rep(e.1 as nat);
    assert forall|j: int| 0 <= j < l.len() implies l[j] != '\n' by {
        if j < tok.len() {
            assert(l[j] == tok[j]);
        } else if j == tok.len() {
            assert(l[j] == ':');
        } else if j == tok.len() + 1 {
            assert(l[j] == ' ');
        } else {
            assert(l[j] == digits[j - tok.len() - 2]);
            assert(crate::numbers::is_digit(digits[j - tok.len() - 2]));
        }
    }
}

/// A rendered entry line parses back to the same entry.
proof fn lemma_parse_entry_line_round(e: (ItemView, u32))
    requires
        item_wf(e.0),
    ensures
        parse_entry_line(entry_line(e)) == Ok::<(ItemView, u32), StoreErrV>(e),
{
    let tok = encode_item(e.0);
    let digits = dec_rep(e.1 as nat);
    let l = entry_line(e);
    lemma_encode_item_chars(e.0);
    lemma_dec_rep(e.1 as nat);
    lemma_find2(l, ':', ' ');
    assert(l[tok.len() as int] == ':');
    assert(l[tok.len() as int + 1] == ' ');
    assert(digits.len() >= 1);
    assert(l.len() == tok.len() + 2 + digits.len());
    assert(forall|j: int| 0 <= j < tok.len() ==> l[j] == tok[j]);
    let f = find2(l, ':', ' ');
    assert(f >= 0) by {
        if f < 0 {
            assert(!(l[tok.len() as int] == ':' && l[tok.len() as int + 1] == ' '));
        }
    }
    assert(f == tok.len()) by {
        if f < tok.len() {
            assert(l[f] == tok[f]);
            assert(tok[f] != ':');
        }
        if f > tok.len() {
            assert(!(l[tok.len() as int] == ':' && l[tok.len() as int + 1] == ' '));
        }
    }
    assert(l.take(f) =~= tok);
    assert(l.skip(f + 2) =~= digits);
    lemma_codec_round_trip(e.0);
    lemma_u32_round_trip(e.1);
}

/// The rendered entry lines parse back to the same entries.
proof fn lemma_entries_round_trip(es: Seq<(ItemView, u32)>)
    requires
        forall|i: int| 0 <= i < es.len() ==> item_wf((#[trigger] es[i]).0),
    ensures
        parse_entry_lines(split1(render_entries(es), '\n')) == Ok::<
            Seq<(ItemView, u32)>,
            StoreErrV,
        >(es),
    decreases es.len(),
{
    if es.len() == 0 {
        let lines = split1(render_entries(es), '\n');
        assert(lines =~~= seq![Seq::<char>::empty()]);
        assert(lines.len() == 1);
        assert(lines[0].len() == 0);
        assert(lines.drop_first() =~~= Seq::<Seq<char>>::empty());
        assert(parse_entry_lines(Seq::<Seq<char>>::empty()) == Ok::<
            Seq<(ItemView, u32)>,
            StoreErrV,
        >(Seq::<(ItemView, u32)>::empty()));
        assert(parse_entry_lines(lines) == Ok::<Seq<(ItemView, u32)>, StoreErrV>(
            Seq::<(ItemView, u32)>::empty(),
        ));
        assert(es =~= Seq::<(ItemView, u32)>::empty());
    } else {
        let e = es[0];
        lemma_render_entries_front(es);
        lemma_entry_line_props(e);
        let line0 = entry_line(e);
        let rest_text = render_entries(es.drop_first());
        assert(render_entries(es) =~= line0 + seq!['\n'] + rest_text);
        lemma_split1_sep_at(line0, rest_text, '\n');
        let lines = split1(render_entries(es), '\n');
        assert(lines == seq![line0] + split1(rest_text, '\n'));
        assert(lines[0] == line0);
        assert(lines.drop_first() =~~= split1(rest_text, '\n'));
        lemma_parse_entry_line_round(e);
        assert(forall|i: int|
            0 <= i < es.drop_first().len() ==> (#[trigger] es.drop_first()[i]) == es[i + 1]);
        lemma_entries_round_trip(es.drop_first());
        assert(seq![e] + es.drop_first() =~= es);
    }
}

/// A well-formed config's header block parses back to the same config,
/// and the lines after it are exactly the entry lines.
proof fn lemma_header_round_trip(cfg: ConfigView, body: Seq<char>)
    requires
        free_of(cfg.version, '\n'),
    ensures
        split1(render_config(cfg) + body, '\n') == seq![
            "config:"@,
            "  pairs: "@ + render_bool(cfg.pairs),
            "  no_chords: "@ + render_bool(cfg.no_chords),
            "  version: "@ + cfg.version,
        ] + split1(body, '\n'),
        parse_header(
            "  pairs: "@ + render_bool(cfg.pairs),
            "  no_chords: "@ + render_bool(cfg.no_chords),
            "  version: "@ + cfg.version,
        ) == Some(cfg),
        "config:"@.len() > 0,
{
    reveal_strlit("config:");
    reveal_strlit("  pairs: ");
    reveal_strlit("  no_chords: ");
    reveal_strlit("  version: ");
    reveal_strlit("true");
    reveal_strlit("false");
    reveal_strlit("  pairs: true");
    reveal_strlit("  pairs: false");
    reveal_strlit("  no_chords: true");
    reveal_strlit("  no_chords: false");
    let l0 = "config:"@;
    let h1 = "  pairs: "@ + render_bool(cfg.pairs);
    let h2 = "  no_chords: "@ + render_bool(cfg.no_chords);
    let h3 = "  version: "@ + cfg.version;
    let text = render_config(cfg) + body;
    assert(free_of(l0, '\n'));
    assert(free_of(h1, '\n'));
    assert(free_of(h2, '\n'));
    assert(free_of(h3, '\n')) by {
        assert(forall|j: int|
            0 <= j < h3.len() ==> h3[j] == (if j < 11 {
                "  version: "@[j]
            } else {
                cfg.version[j - 11]
            }));
    }
    assert(text =~= l0 + seq!['\n'] + (h1 + seq!['\n'] + (h2 + seq!['\n'] + (h3 + seq!['\n']
        + body))));
    lemma_split1_sep_at(l0, h1 + seq!['\n'] + (h2 + seq!['\n'] + (h3 + seq!['\n'] + body)), '\n');
    lemma_split1_sep_at(h1, h2 + seq!['\n'] + (h3 + seq!['\n'] + body), '\n');
    lemma_split1_sep_at(h2, h3 + seq!['\n'] + body, '\n');
    lemma_split1_sep_at(h3, body, '\n');
    assert(split1(text, '\n') =~~= seq![l0, h1, h2, h3] + split1(body, '\n'));
    // the header lines parse back
    if cfg.pairs {
        assert(h1 =~= "  pairs: true"@);
    } else {
        assert(h1 =~= "  pairs: false"@);
        assert(h1.len() != "  pairs: true"@.len());
    }
    if cfg.no_chords {
        assert(h2 =~= "  no_chords: true"@);
    } else {
        assert(h2 =~= "  no_chords: false"@);
        assert(h2.len() != "  no_chords: true"@.len());
    }
    assert(h3.len() >= "  version: "@.len());
    assert(h3.take("  version: "@.len() as int) =~= "  version: "@);
    assert(h3.skip("  version: "@.len() as int) =~= cfg.version);
}

/// Idempotence of save and load, first half: the full rendered text
/// parses back to the same config and the same entry list.
pub proof fn lemma_store_round_trip(cfg: ConfigView, es: Seq<(ItemView, u32)>)
    requires
        free_of(cfg.version, '\n'),
        forall|i: int| 0 <= i < es.len() ==> item_wf((#[trigger] es[i]).0),
    ensures
        parse_stats(render_stats(cfg, es)) == Ok::<
            (Option<ConfigView>, Seq<(ItemView, u32)>),
            StoreErrV,
        >((Some(cfg), es)),
{
    let text = render_stats(cfg, es);
    let body = render_entries(es);
    lemma_header_round_trip(cfg, body);
    let lines = split1(text, '\n');
    let l0 = "config:"@;
    let h1 = "  pairs: "@ + render_bool(cfg.pairs);
    let h2 = "  no_chords: "@ + render_bool(cfg.no_chords);
    let h3 = "  version: "@ + cfg.version;
    assert(lines[0] == l0);
    assert(lines.len() >= 4);
    assert(lines[1] == h1 && lines[2] == h2 && lines[3] == h3);
    assert(lines.skip(4) =~~= split1(body, '\n'));
    lemma_entries_round_trip(es);
}

/// What `entries_to_map` builds: each listed key is bound, and every
/// binding comes from some listed entry.
proof fn lemma_entries_to_map_props(es: Seq<(ItemView, u32)>)
    ensures
        forall|i: int| 0 <= i < es.len() ==> entries_to_map(es).dom().contains((#[trigger] es[i]).0),
        forall|k: ItemView|
            #[trigger] entries_to_map(es).dom().contains(k) ==> exists|i: int|
                0 <= i < es.len() && (#[trigger] es[i]).0 == k && es[i].1 == entries_to_map(es)[k],
    decreases es.len(),
{
    if es.len() > 0 {
        let front = es.drop_last();
        lemma_entries_to_map_props(front);
        let m = entries_to_map(es);
        let last = es.last();
        assert forall|i: int| 0 <= i < es.len() implies m.dom().contains((#[trigger] es[i]).0) by {
            if i < es.len() - 1 {
                assert(front[i] == es[i]);
                assert(entries_to_map(front).dom().contains(es[i].0));
            }
        }
        assert forall|k: ItemView| #[trigger] m.dom().contains(k) implies exists|i: int|
            0 <= i < es.len() && (#[trigger] es[i]).0 == k && es[i].1 == m[k] by {
            if k == last.0 {
                assert(es[es.len() - 1].0 == k && es[es.len() - 1].1 == m[k]);
            } else {
                assert(entries_to_map(front).dom().contains(k));
                let i = choose|i: int|
                    0 <= i < front.len() && (#[trigger] front[i]).0 == k && front[i].1
                        == entries_to_map(front)[k];
                assert(es[i] == front[i]);
            }
        }
    }
}

/// Idempotence of save and load, second half: rebuilding a table from
/// any enumeration of a map restores exactly that map.
pub proof fn lemma_entries_to_map_lists(es: Seq<(ItemView, u32)>, m: Map<ItemView, u32>)
    requires
        lists_map(es, m),
    ensures
        entries_to_map(es) == m,
{
    lemma_entries_to_map_props(es);
    let em = entries_to_map(es);
    assert forall|k: ItemView| #[trigger] em.dom().contains(k) implies m.dom().contains(k) && em[k]
        == m[k] by {
        let i = choose|i: int| 0 <= i < es.len() && (#[trigger] es[i]).0 == k && es[i].1 == em[k];
        assert(m.contains_pair(es[i].0, es[i].1));
    }
    assert forall|k: ItemView| #[trigger] m.dom().contains(k) implies em.dom().contains(k) by {
        let i = choose|i: int| 0 <= i < es.len() && (#[trigger] es[i]).0 == k;
        assert(em.dom().contains(es[i].0));
    }
    assert(em =~= m);
}

/// Idempotence of save and load: parsing the text a store serializes to
/// yields the same config and an entry list that rebuilds the same
/// counts map. `serialize` produces `render_stats` of some enumeration
/// of the table, and `deserialize` rebuilds `entries_to_map` of what it
/// parses, so a loaded store always equals the saved one.
pub proof fn lemma_save_load_round_trip(
    cfg: ConfigView,
    es: Seq<(ItemView, u32)>,
    m: Map<ItemView, u32>,
)
    requires
        free_of(cfg.version, '\n'),
        forall|i: int| 0 <= i < es.len() ==> item_wf((#[trigger] es[i]).0),
        lists_map(es, m),
    ensures
        parse_stats(render_stats(cfg, es)) == Ok::<
            (Option<ConfigView>, Seq<(ItemView, u32)>),
            StoreErrV,
        >((Some(cfg), es)),
        entries_to_map(es) == m,
{
    lemma_store_round_trip(cfg, es);
    lemma_entries_to_map_lists(es, m);
}

} // verus!
