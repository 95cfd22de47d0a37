//! Style components and their resolution: each style option occurrence
//! either replaces the active set or edits it with `+`/`-` deltas; aliases
//! expand before deltas apply; `rule` under `grid` earns a warning but keeps
//! both components.
use vstd::prelude::*;
use crate::ansi::ESC_CHAR;
use crate::chars::chars_eq;
use crate::chars::str_to_chars;

verus! {

/// The active decoration components.
#[derive(Clone, Copy, PartialEq, Eq, Structural, Debug)]
pub struct StyleSet {
    pub header_filename: bool,
    pub header_filesize: bool,
    pub grid: bool,
    pub rule: bool,
    pub numbers: bool,
    pub changes: bool,
    pub snip: bool,
}

impl StyleSet {
    /// No components at all.
    pub open spec fn none_spec() -> StyleSet {
        StyleSet {
            header_filename: false,
            header_filesize: false,
            grid: false,
            rule: false,
            numbers: false,
            changes: false,
            snip: false,
        }
    }

    /// The default component set: grid, filename header, numbers and snip.
    pub open spec fn default_spec() -> StyleSet {
        StyleSet {
            header_filename: true,
            header_filesize: false,
            grid: true,
            rule: false,
            numbers: true,
            changes: false,
            snip: true,
        }
    }

    /// Componentwise union.
    pub open spec fn union_spec(self, o: StyleSet) -> StyleSet {
        StyleSet {
            header_filename: self.header_filename || o.header_filename,
            header_filesize: self.header_filesize || o.header_filesize,
            grid: self.grid || o.grid,
            rule: self.rule || o.rule,
            numbers: self.numbers || o.numbers,
            changes: self.changes || o.changes,
            snip: self.snip || o.snip,
        }
    }

    /// Componentwise removal.
    pub open spec fn minus_spec(self, o: StyleSet) -> StyleSet {
        StyleSet {
            header_filename: self.header_filename && !o.header_filename,
            header_filesize: self.header_filesize && !o.header_filesize,
            grid: self.grid && !o.grid,
            rule: self.rule && !o.rule,
            numbers: self.numbers && !o.numbers,
            changes: self.changes && !o.changes,
            snip: self.snip && !o.snip,
        }
    }

    /// The empty set, as a value.
    pub fn none() -> (r: StyleSet)
        ensures
            r == StyleSet::none_spec(),
    {
        StyleSet {
            header_filename: false,
            header_filesize: false,
            grid: false,
            rule: false,
            numbers: false,
            changes: false,
            snip: false,
        }
    }

    /// The default set, as a value.
    pub fn default_set() -> (r: StyleSet)
        ensures
            r == StyleSet::default_spec(),
    {
        StyleSet {
            header_filename: true,
            header_filesize: false,
            grid: true,
            rule: false,
            numbers: true,
            changes: false,
            snip: true,
        }
    }

    /// Union, as a value.
    pub fn union(self, o: StyleSet) -> (r: StyleSet)
        ensures
            r == self.union_spec(o),
    {
        StyleSet {
            header_filename: self.header_filename || o.header_filename,
            header_filesize: self.header_filesize || o.header_filesize,
            grid: self.grid || o.grid,
            rule: self.rule || o.rule,
            numbers: self.numbers || o.numbers,
            changes: self.changes || o.changes,
            snip: self.snip || o.snip,
        }
    }

    /// Removal, as a value.
    pub fn minus(self, o: StyleSet) -> (r: StyleSet)
        ensures
            r == self.minus_spec(o),
    {
        StyleSet {
            header_filename: self.header_filename && !o.header_filename,
            header_filesize: self.header_filesize && !o.header_filesize,
            grid: self.grid && !o.grid,
            rule: self.rule && !o.rule,
            numbers: self.numbers && !o.numbers,
            changes: self.changes && !o.changes,
            snip: self.snip && !o.snip,
        }
    }
}

/// The component names a style token can name, including the bundled
/// aliases.
#[derive(Clone, Copy, PartialEq, Eq, Structural, Debug)]
pub enum ComponentName {
    HeaderFilename,
    HeaderFilesize,
    Header,
    Grid,
    Rule,
    Numbers,
    Changes,
    Snip,
    Plain,
    Full,
    DefaultSet,
    Auto,
}

/// What a component name expands to. `auto` expands to the default set on an
/// interactive terminal and to nothing otherwise.
pub open spec fn expand_name(n: ComponentName, interactive: bool) -> StyleSet {
    match n {
        ComponentName::HeaderFilename => StyleSet {
            header_filename: true,
            ..StyleSet::none_spec()
        },
        ComponentName::HeaderFilesize => StyleSet {
            header_filesize: true,
            ..StyleSet::none_spec()
        },
        ComponentName::Header => StyleSet { header_filename: true, ..StyleSet::none_spec() },
        ComponentName::Grid => StyleSet { grid: true, ..StyleSet::none_spec() },
        ComponentName::Rule => StyleSet { rule: true, ..StyleSet::none_spec() },
        ComponentName::Numbers => StyleSet { numbers: true, ..StyleSet::none_spec() },
        ComponentName::Changes => StyleSet { changes: true, ..StyleSet::none_spec() },
        ComponentName::Snip => StyleSet { snip: true, ..StyleSet::none_spec() },
        ComponentName::Plain => StyleSet::none_spec(),
        ComponentName::Full => StyleSet {
            header_filename: true,
            header_filesize: true,
            grid: true,
            rule: false,
            numbers: true,
            changes: false,
            snip: true,
        },
        ComponentName::DefaultSet => StyleSet::default_spec(),
        ComponentName::Auto => if interactive {
            StyleSet::default_spec()
        } else {
            StyleSet::none_spec()
        },
    }
}

/// The component a keyword names.
pub open spec fn component_of_name(s: Seq<char>) -> Option<ComponentName> {
    if s == "header-filename"@ {
        Some(ComponentName::HeaderFilename)
    } else if s == "header-filesize"@ {
        Some(ComponentName::HeaderFilesize)
    } else if s == "header"@ {
        Some(ComponentName::Header)
    } else if s == "grid"@ {
        Some(ComponentName::Grid)
    } else if s == "rule"@ {
        Some(ComponentName::Rule)
    } else if s == "numbers"@ {
        Some(ComponentName::Numbers)
    } else if s == "changes"@ {
        Some(ComponentName::Changes)
    } else if s == "snip"@ {
        Some(ComponentName::Snip)
    } else if s == "plain"@ {
        Some(ComponentName::Plain)
    } else if s == "full"@ {
        Some(ComponentName::Full)
    } else if s == "default"@ {
        Some(ComponentName::DefaultSet)
    } else if s == "auto"@ {
        Some(ComponentName::Auto)
    } else {
        None
    }
}

/// Look a keyword up.
pub fn parse_component(name: &[char]) -> (r: Option<ComponentName>)
    ensures
        r == component_of_name(name@),
{
    let kws: [&str; 12] = [
        "header-filename",
        "header-filesize",
        "header",
        "grid",
        "rule",
        "numbers",
        "changes",
        "snip",
        "plain",
        "full",
        "default",
        "auto",
    ];
    if chars_eq(name, str_to_chars(kws[0]).as_slice()) {
        return Some(ComponentName::HeaderFilename);
    }
    if chars_eq(name, str_to_chars(kws[1]).as_slice()) {
        return Some(ComponentName::HeaderFilesize);
    }
    if chars_eq(name, str_to_chars(kws[2]).as_slice()) {
        return Some(ComponentName::Header);
    }
    if chars_eq(name, str_to_chars(kws[3]).as_slice()) {
        return Some(ComponentName::Grid);
    }
    if chars_eq(name, str_to_chars(kws[4]).as_slice()) {
        return Some(ComponentName::Rule);
    }
    if chars_eq(name, str_to_chars(kws[5]).as_slice()) {
        return Some(ComponentName::Numbers);
    }
    if chars_eq(name, str_to_chars(kws[6]).as_slice()) {
        return Some(ComponentName::Changes);
    }
    if chars_eq(name, str_to_chars(kws[7]).as_slice()) {
        return Some(ComponentName::Snip);
    }
    if chars_eq(name, str_to_chars(kws[8]).as_slice()) {
        return Some(ComponentName::Plain);
    }
    if chars_eq(name, str_to_chars(kws[9]).as_slice()) {
        return Some(ComponentName::Full);
    }
    if chars_eq(name, str_to_chars(kws[10]).as_slice()) {
        return Some(ComponentName::DefaultSet);
    }
    if chars_eq(name, str_to_chars(kws[11]).as_slice()) {
        return Some(ComponentName::Auto);
    }
    None
}

/// How one token occurs: bare, adding, or removing.
#[derive(Clone, Copy, PartialEq, Eq, Structural, Debug)]
pub enum StyleSign {
    Bare,
    Adds,
    Removes,
}

/// One token of a style occurrence.
#[derive(Clone, Copy, PartialEq, Eq, Structural, Debug)]
pub struct StyleToken {
    pub sign: StyleSign,
    pub name: ComponentName,
}

/// An occurrence is a delta when any of its tokens carries a sign; bare
/// tokens then act as additions. Otherwise the occurrence replaces the set.
pub open spec fn is_delta(tokens: Seq<StyleToken>) -> bool {
    exists|i: int|
        0 <= i < tokens.len() && (#[trigger] tokens[i]).sign != StyleSign::Bare
}

/// Apply one token to a running set.
pub open spec fn apply_token(set: StyleSet, t: StyleToken, interactive: bool) -> StyleSet {
    match t.sign {
        StyleSign::Removes => set.minus_spec(expand_name(t.name, interactive)),
        _ => set.union_spec(expand_name(t.name, interactive)),
    }
}

pub open spec fn apply_tokens(
    set: StyleSet,
    tokens: Seq<StyleToken>,
    interactive: bool,
) -> StyleSet
    decreases tokens.len(),
{
    if tokens.len() == 0 {
        set
    } else {
        apply_tokens(apply_token(set, tokens[0], interactive), tokens.drop_first(), interactive)
    }
}

/// Apply one occurrence: a delta edits the running set, a bare list replaces
/// it.
pub open spec fn apply_edit(set: StyleSet, tokens: Seq<StyleToken>, interactive: bool) -> StyleSet {
    if is_delta(tokens) {
        apply_tokens(set, tokens, interactive)
    } else {
        apply_tokens(StyleSet::none_spec(), tokens, interactive)
    }
}

/// Resolve a list of occurrences left to right, starting from `base`.
pub open spec fn resolve_spec(
    base: StyleSet,
    edits: Seq<Seq<StyleToken>>,
    interactive: bool,
) -> StyleSet
    decreases edits.len(),
{
    if edits.len() == 0 {
        base
    } else {
        resolve_spec(apply_edit(base, edits[0], interactive), edits.drop_first(), interactive)
    }
}

fn expand_name_exec(n: ComponentName, interactive: bool) -> (r: StyleSet)
    ensures
        r == expand_name(n, interactive),
{
    let none = StyleSet::none();
    match n {
        ComponentName::HeaderFilename => StyleSet { header_filename: true, ..none },
        ComponentName::HeaderFilesize => StyleSet { header_filesize: true, ..none },
        ComponentName::Header => StyleSet { header_filename: true, ..none },
        ComponentName::Grid => StyleSet { grid: true, ..none },
        ComponentName::Rule => StyleSet { rule: true, ..none },
        ComponentName::Numbers => StyleSet { numbers: true, ..none },
        ComponentName::Changes => StyleSet { changes: true, ..none },
        ComponentName::Snip => StyleSet { snip: true, ..none },
        ComponentName::Plain => none,
        ComponentName::Full => StyleSet {
            header_filename: true,
            header_filesize: true,
            grid: true,
            rule: false,
            numbers: true,
            changes: false,
            snip: true,
        },
        ComponentName::DefaultSet => StyleSet::default_set(),
        ComponentName::Auto => if interactive {
            StyleSet::default_set()
        } else {
            none
        },
    }
}

/// The token lists an edit vector denotes.
pub open spec fn edits_view(edits: Seq<Vec<StyleToken>>) -> Seq<Seq<StyleToken>> {
    edits.map_values(|v: Vec<StyleToken>| v@)
}

/// Resolve style occurrences, starting from `base` (the default set when no
/// environment base applies).
pub fn resolve_styles(base: StyleSet, edits: &Vec<Vec<StyleToken>>, interactive: bool) -> (r:
    StyleSet)
    ensures
        r == resolve_spec(base, edits_view(edits@), interactive),
{
    let ghost ev = edits_view(edits@);
    let mut set = base;
    let mut i: usize = 0;
    proof {
        assert(ev.skip(0) =~= ev);
    }
    while i < edits.len()
        invariant
            i <= edits@.len(),
            ev == edits_view(edits@),
            ev.len() == edits@.len(),
            resolve_spec(base, ev, interactive) == resolve_spec(
                set,
                ev.skip(i as int),
                interactive,
            ),
        decreases edits@.len() - i,
    {
        proof {
            assert(ev[i as int] == edits@[i as int]@);
            assert(ev.skip(i as int).drop_first() =~= ev.skip(i + 1 as int));
            assert(ev.skip(i as int)[0] == ev[i as int]);
        }
        let occ = &edits[i];
        // does any token carry a sign?
        let mut delta = false;
        let mut j: usize = 0;
        while j < occ.len()
            invariant
                j <= occ@.len(),
                delta == exists|k: int|
                    0 <= k < j && (#[trigger] occ@[k]).sign != StyleSign::Bare,
            decreases occ@.len() - j,
        {
            if !matches!(occ[j].sign, StyleSign::Bare) {
                delta = true;
            }
            j = j + 1;
        }
        proof {
            assert(delta == is_delta(occ@));
        }
        let mut cur = if delta {
            set
        } else {
            StyleSet::none()
        };
        let ghost start_set = if delta {
            set
        } else {
            StyleSet::none_spec()
        };
        let mut j2: usize = 0;
        proof {
            assert(occ@.skip(0) =~= occ@);
        }
        while j2 < occ.len()
            invariant
                j2 <= occ@.len(),
                apply_tokens(cur, occ@.skip(j2 as int), interactive) == apply_tokens(
                    start_set,
                    occ@,
                    interactive,
                ),
            decreases occ@.len() - j2,
        {
            proof {
                assert(occ@.skip(j2 as int)[0] == occ@[j2 as int]);
                assert(occ@.skip(j2 as int).drop_first() =~= occ@.skip(j2 + 1 as int));
            }
            let t = occ[j2];
            let mask = expand_name_exec(t.name, interactive);
            cur = match t.sign {
                StyleSign::Removes => cur.minus(mask),
                _ => cur.union(mask),
            };
            j2 = j2 + 1;
        }
        proof {
            assert(occ@.skip(occ@.len() as int).len() == 0);
        }
        set = cur;
        i = i + 1;
    }
    proof {
        assert(ev.skip(edits@.len() as int).len() == 0);
    }
    set
}

/// Whether the resolved set makes `rule` invisible under `grid`; both flags
/// stay set, only a warning is owed.
pub fn rule_hidden_by_grid(set: &StyleSet) -> (r: bool)
    ensures
        r == (set.grid && set.rule),
{
    set.grid && set.rule
}

/// Relies on `nu_ansi_term::Color::paint` and its `Display`: painting with
/// `Color::Yellow` wraps the text in the SGR sequence for foreground code 33
/// and the SGR reset.
#[verifier::external_body]
fn paint_yellow(s: &str) -> (r: String)
    ensures
        r@ == seq![ESC_CHAR, '[', '3', '3', 'm'] + s@ + seq![ESC_CHAR, '[', '0', 'm'],
{
    format!("{}", nu_ansi_term::Color::Yellow.paint(s))
}

/// The warning line, coloured for the terminal, that `rule` is redundant
/// under `grid`.
pub fn rule_grid_warning_line() -> (r: String)
    ensures
        r@ == seq![ESC_CHAR, '[', '3', '3', 'm'] + "[kit warning]"@ + seq![ESC_CHAR, '[', '0', 'm']
            + ": Style 'rule' is a subset of style 'grid', 'rule' will not be visible."@,
{
    let mut r = paint_yellow("[kit warning]");
    r.append(": Style 'rule' is a subset of style 'grid', 'rule' will not be visible.");
    r
}

} // verus!
