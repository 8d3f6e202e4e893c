//! Attribute ordering profiles: groups of attribute-name patterns in priority
//! order, and the rules for validating a profile's plain definition.

use vstd::prelude::*;

use crate::error::{ProfileError, ProfileErrorView};
use crate::stylesheet::{
    build_stylesheet, malva_accepts, yaml_view, DeclarationGrouping, DeclarationSort,
    StyleSource, Stylesheet,
};
use crate::text::{
    chars_to_string, eq_str, find_exec, find_from, lemma_find_from_bounds, lower_seq, lower_vec,
    matches_at_exec, seq_eq, slice_vec, starts_with, to_chars,
};

verus! {

/// The profile schema version this library reads.
pub const SCHEMA_VERSION: u32 = 1;

/// How attributes that fall into the same group are ordered relative to each other.
#[derive(Clone, Copy, Debug, PartialEq, Eq, Structural)]
pub enum GroupSort {
    /// Keep the order in which the attributes appear in the source.
    Source,
    /// Sort by normalized attribute name.
    Alphabetical,
    /// Follow the order of the group's `match` patterns.
    Listed,
}

impl Default for GroupSort {
    fn default() -> (r: Self)
        ensures
            r == GroupSort::Source,
    {
        GroupSort::Source
    }
}

/// Attribute name rewrites applied before classification.
#[derive(Clone, Copy, Debug)]
pub struct Normalize {
    /// `v-bind:foo` → `:foo`, `v-on:click` → `@click`.
    pub directive_shorthand: bool,
    /// camelCase → kebab-case for attributes of component tags.
    pub hyphenate_component_props: bool,
}

impl Default for Normalize {
    fn default() -> (r: Self)
        ensures
            !r.directive_shorthand && !r.hyphenate_component_props,
    {
        Normalize { directive_shorthand: false, hyphenate_component_props: false }
    }
}

/// Whether an element is written self-closing (`<br />`, `<MyComp />`).
#[derive(Clone, Copy, Debug, PartialEq, Eq, Structural)]
pub enum SelfClosing {
    /// Always self-close (`<br />`); empty elements lose their end tag.
    Always,
    /// Never self-close (`<br>`, `<MyComp></MyComp>`).
    Never,
    /// Keep whatever the source uses.
    Preserve,
}

impl Default for SelfClosing {
    fn default() -> (r: Self)
        ensures
            r == SelfClosing::Preserve,
    {
        SelfClosing::Preserve
    }
}

/// Self-closing style per element kind, mirroring `vue/html-self-closing`.
#[derive(Clone, Copy, Debug)]
pub struct SelfClosingRules {
    /// Void elements (`br`, `img`, `input`, …).
    pub void: SelfClosing,
    /// Empty non-void HTML/SVG elements. Vue templates only: in plain HTML,
    /// `<div />` is an unclosed start tag.
    pub normal: SelfClosing,
    /// Empty components. Vue templates only.
    pub component: SelfClosing,
}

impl Default for SelfClosingRules {
    fn default() -> (r: Self)
        ensures
            r.void == SelfClosing::Preserve,
            r.normal == SelfClosing::Preserve,
            r.component == SelfClosing::Preserve,
    {
        SelfClosingRules {
            void: SelfClosing::Preserve,
            normal: SelfClosing::Preserve,
            component: SelfClosing::Preserve,
        }
    }
}

/// Start-tag layout rules.
#[derive(Clone, Copy, Debug)]
pub struct Layout {
    /// Put the closing bracket of a multiline start tag on its own line.
    pub closing_bracket_newline: bool,
    /// In a start tag whose attributes span several lines, put each attribute on its own line.
    pub one_attribute_per_line: bool,
    /// Self-closing style per element kind.
    pub self_closing: SelfClosingRules,
}

impl Default for Layout {
    fn default() -> (r: Self)
        ensures
            !r.closing_bracket_newline,
            !r.one_attribute_per_line,
            r.self_closing.void == SelfClosing::Preserve,
            r.self_closing.normal == SelfClosing::Preserve,
            r.self_closing.component == SelfClosing::Preserve,
    {
        Layout {
            closing_bracket_newline: false,
            one_attribute_per_line: false,
            self_closing: SelfClosingRules::default(),
        }
    }
}

/// A compiled `match` pattern: an exact name, or a prefix (`name*`).
#[derive(Debug)]
pub enum Pattern {
    Exact(Vec<char>),
    Prefix(Vec<char>),
}

pub enum PatternView {
    Exact(Seq<char>),
    Prefix(Seq<char>),
}

impl View for Pattern {
    type V = PatternView;

    open spec fn view(&self) -> PatternView {
        match self {
            Pattern::Exact(n) => PatternView::Exact(n@),
            Pattern::Prefix(n) => PatternView::Prefix(n@),
        }
    }
}

/// One group of a profile.
#[derive(Debug)]
pub struct Group {
    pub name: Vec<char>,
    pub patterns: Vec<Pattern>,
    pub sort: GroupSort,
    /// Moving these attributes across a `v-bind="object"` spread cannot change behavior.
    pub spread_safe: bool,
}

#[verifier::ext_equal]
pub struct GroupView {
    pub name: Seq<char>,
    pub patterns: Seq<PatternView>,
    pub sort: GroupSort,
    pub spread_safe: bool,
}

impl Clone for Pattern {
    fn clone(&self) -> (r: Self)
        ensures
            r@ == self@,
    {
        match self {
            Pattern::Exact(n) => Pattern::Exact(n.clone()),
            Pattern::Prefix(n) => Pattern::Prefix(n.clone()),
        }
    }
}

impl View for Group {
    type V = GroupView;

    open spec fn view(&self) -> GroupView {
        GroupView {
            name: self.name@,
            patterns: self.patterns@.map_values(|p: Pattern| p@),
            sort: self.sort,
            spread_safe: self.spread_safe,
        }
    }
}

impl Clone for Group {
    fn clone(&self) -> (r: Self)
        ensures
            r@ == self@,
    {
        let patterns = self.patterns.clone();
        assert(patterns@.map_values(|p: Pattern| p@) =~= self.patterns@.map_values(|p: Pattern| p@));
        Group { name: self.name.clone(), patterns, sort: self.sort, spread_safe: self.spread_safe }
    }
}

/// Result of classifying one attribute key.
#[derive(Clone, Copy, Debug, PartialEq, Eq, Structural)]
pub struct Classification {
    /// Position of the group in the profile.
    pub group: usize,
    /// Index of the matching pattern inside the group (used by [`GroupSort::Listed`]).
    pub pattern: usize,
}

/// A validated attribute ordering profile.
#[derive(Debug)]
pub struct Profile {
    pub(crate) name: Vec<char>,
    pub(crate) description: Option<Vec<char>>,
    pub(crate) groups: Vec<Group>,
    pub(crate) fallback: usize,
    pub(crate) normalize: Normalize,
    pub(crate) layout: Layout,
    pub(crate) stylesheet: Option<Stylesheet>,
}

/// The match specificity of `p` for `key`: exact matches beat any prefix,
/// longer prefixes beat shorter ones.
pub open spec fn spec_specificity(p: PatternView, key: Seq<char>) -> Option<int> {
    match p {
        PatternView::Exact(n) => if n == key {
            Some(usize::MAX as int)
        } else {
            None
        },
        PatternView::Prefix(n) => if starts_with(key, n) {
            Some(n.len() as int)
        } else {
            None
        },
    }
}

/// Keeps `best` unless pattern `(g, p)` scores strictly higher.
pub open spec fn better(
    best: Option<(int, Classification)>,
    score: Option<int>,
    g: int,
    p: int,
) -> Option<(int, Classification)> {
    match score {
        None => best,
        Some(s) => match best {
            None => Some((s, Classification { group: g as usize, pattern: p as usize })),
            Some(b) => if s > b.0 {
                Some((s, Classification { group: g as usize, pattern: p as usize }))
            } else {
                best
            },
        },
    }
}

/// Best match among the first `n` patterns of group `g`, starting from `start`.
pub open spec fn best_in_group(
    gs: Seq<GroupView>,
    key: Seq<char>,
    g: int,
    n: int,
    start: Option<(int, Classification)>,
) -> Option<(int, Classification)>
    decreases n,
{
    if n <= 0 {
        start
    } else {
        better(
            best_in_group(gs, key, g, n - 1, start),
            spec_specificity(gs[g].patterns[n - 1], key),
            g,
            n - 1,
        )
    }
}

/// Best match among the patterns of the first `n` groups: the highest
/// specificity, the earliest pattern among equals.
pub open spec fn best_upto(gs: Seq<GroupView>, key: Seq<char>, n: int) -> Option<
    (int, Classification),
>
    decreases n,
{
    if n <= 0 {
        None
    } else {
        best_in_group(gs, key, n - 1, gs[n - 1].patterns.len() as int, best_upto(gs, key, n - 1))
    }
}

/// The group (and pattern) of `key`: the most specific matching pattern, the
/// first one among equally specific patterns; the fallback group when none matches.
pub open spec fn spec_classify(gs: Seq<GroupView>, fallback: int, key: Seq<char>) -> Classification {
    match best_upto(gs, key, gs.len() as int) {
        Some(b) => b.1,
        None => Classification { group: fallback as usize, pattern: 0 },
    }
}

/// Pattern `k` of group `g` comes before the patterns from pattern `kl` of
/// group `gl` on.
pub open spec fn pattern_before(gs: Seq<GroupView>, g: int, k: int, gl: int, kl: int) -> bool {
    &&& 0 <= g < gs.len()
    &&& 0 <= k < gs[g].patterns.len()
    &&& (g < gl || (g == gl && k < kl))
}

/// `best` is what [`best_upto`] keeps after the patterns before `(gl, kl)`:
/// nothing when none of them matches `key`, else the first of the most
/// specific ones.
pub open spec fn best_so_far(gs: Seq<GroupView>, key: Seq<char>, best: Option<(int, Classification)>, gl: int, kl: int) -> bool {
    match best {
        None => forall|g: int, k: int|
            pattern_before(gs, g, k, gl, kl) ==> (#[trigger] spec_specificity(gs[g].patterns[k], key)) is None,
        Some(b) => {
            &&& pattern_before(gs, b.1.group as int, b.1.pattern as int, gl, kl)
            &&& spec_specificity(gs[b.1.group as int].patterns[b.1.pattern as int], key) == Some(b.0)
            &&& forall|g: int, k: int|
                pattern_before(gs, g, k, gl, kl) && (#[trigger] spec_specificity(gs[g].patterns[k], key)) is Some
                    ==> spec_specificity(gs[g].patterns[k], key)->0 < b.0 || (spec_specificity(
                    gs[g].patterns[k],
                    key,
                )->0 == b.0 && (b.1.group < g || (b.1.group == g && b.1.pattern <= k)))
        },
    }
}

proof fn lemma_best_in_group(gs: Seq<GroupView>, key: Seq<char>, g: int, n: int, start: Option<(int, Classification)>)
    requires
        0 <= g < gs.len() <= usize::MAX,
        0 <= n <= gs[g].patterns.len() <= usize::MAX,
        best_so_far(gs, key, start, g, 0),
    ensures
        best_so_far(gs, key, best_in_group(gs, key, g, n, start), g, n),
    decreases n,
{
    if n > 0 {
        lemma_best_in_group(gs, key, g, n - 1, start);
        let prev = best_in_group(gs, key, g, n - 1, start);
        let next = best_in_group(gs, key, g, n, start);
        assert forall|g2: int, k: int| pattern_before(gs, g2, k, g, n) implies (pattern_before(gs, g2, k, g, n - 1) || (g2 == g && k == n - 1)) by {}
        match next {
            None => {},
            Some(b) => {
                assert forall|g2: int, k: int|
                    pattern_before(gs, g2, k, g, n) && (#[trigger] spec_specificity(gs[g2].patterns[k], key)) is Some
                    implies spec_specificity(gs[g2].patterns[k], key)->0 < b.0 || (spec_specificity(gs[g2].patterns[k], key)->0 == b.0
                        && (b.1.group < g2 || (b.1.group == g2 && b.1.pattern <= k))) by {
                    if !(g2 == g && k == n - 1) {
                        assert(pattern_before(gs, g2, k, g, n - 1));
                    }
                }
            },
        }
    }
}

proof fn lemma_best_upto(gs: Seq<GroupView>, key: Seq<char>, n: int)
    requires
        0 <= n <= gs.len() <= usize::MAX,
        forall|g: int| 0 <= g < gs.len() ==> (#[trigger] gs[g]).patterns.len() <= usize::MAX,
    ensures
        best_so_far(gs, key, best_upto(gs, key, n), n, 0),
    decreases n,
{
    if n > 0 {
        lemma_best_upto(gs, key, n - 1);
        let m = gs[n - 1].patterns.len() as int;
        lemma_best_in_group(gs, key, n - 1, m, best_upto(gs, key, n - 1));
        let b = best_upto(gs, key, n);
        assert forall|g: int, k: int| pattern_before(gs, g, k, n, 0) implies pattern_before(gs, g, k, n - 1, m) by {}
        match b {
            None => {},
            Some(x) => {
                assert forall|g: int, k: int|
                    pattern_before(gs, g, k, n, 0) && (#[trigger] spec_specificity(gs[g].patterns[k], key)) is Some
                    implies spec_specificity(gs[g].patterns[k], key)->0 < x.0 || (spec_specificity(gs[g].patterns[k], key)->0 == x.0
                        && (x.1.group < g || (x.1.group == g && x.1.pattern <= k))) by {
                    assert(pattern_before(gs, g, k, n - 1, m));
                }
            },
        }
    }
}

/// Classification picks the most specific matching pattern (an exact name
/// beats any prefix, a longer prefix beats a shorter one), the first one in
/// priority order among equally specific patterns, and the fallback group
/// when no pattern matches.
pub proof fn lemma_classify_most_specific(profile: Profile, key: Seq<char>)
    ensures
        ({
            let gs = profile.spec_groups();
            let c = profile.classify_key(key);
            &&& (forall|g: int, k: int|
                0 <= g < gs.len() && 0 <= k < gs[g].patterns.len() ==> (#[trigger] spec_specificity(gs[g].patterns[k], key)) is None)
                ==> c.group == profile.spec_fallback() && c.pattern == 0
            &&& forall|g: int, k: int|
                0 <= g < gs.len() && 0 <= k < gs[g].patterns.len() && (#[trigger] spec_specificity(gs[g].patterns[k], key)) is Some
                ==> {
                &&& c.group < gs.len()
                &&& c.pattern < gs[c.group as int].patterns.len()
                &&& spec_specificity(gs[c.group as int].patterns[c.pattern as int], key) matches Some(best)
                &&& spec_specificity(gs[g].patterns[k], key)->0 <= best
                &&& spec_specificity(gs[g].patterns[k], key)->0 == best ==> (c.group < g || (c.group == g && c.pattern <= k))
            }
        }),
{
    let gs = profile.spec_groups();
    assert(profile.groups.len() == profile.groups@.len());
    assert forall|g: int| 0 <= g < gs.len() implies (#[trigger] gs[g]).patterns.len() <= usize::MAX by {
        let grp = profile.groups@[g];
        assert(grp.patterns.len() == grp.patterns@.len());
    }
    lemma_best_upto(gs, key, gs.len() as int);
    let b = best_upto(gs, key, gs.len() as int);
    assert forall|g: int, k: int| 0 <= g < gs.len() && 0 <= k < gs[g].patterns.len() implies pattern_before(gs, g, k, gs.len() as int, 0) by {}
}

impl Clone for Profile {
    fn clone(&self) -> (r: Self)
        ensures
            r.spec_name() == self.spec_name(),
            r.spec_description() == self.spec_description(),
            r.spec_groups() == self.spec_groups(),
            r.spec_fallback() == self.spec_fallback(),
            r.spec_normalize() == self.spec_normalize(),
            r.spec_layout() == self.spec_layout(),
            r.spec_stylesheet() is Some == self.spec_stylesheet() is Some,
            r.spec_stylesheet() matches Some(s) ==> s.spec_source() == self.spec_stylesheet()->0.spec_source(),
    {
        proof {
            use_type_invariant(self);
        }
        let groups = self.groups.clone();
        assert(groups@.map_values(|g: Group| g@) =~= self.groups@.map_values(|g: Group| g@));
        let description = match &self.description {
            Some(d) => Some(d.clone()),
            None => None,
        };
        let stylesheet = match &self.stylesheet {
            Some(s) => Some(s.clone()),
            None => None,
        };
        Profile {
            name: self.name.clone(),
            description,
            groups,
            fallback: self.fallback,
            normalize: self.normalize,
            layout: self.layout,
            stylesheet,
        }
    }
}

impl Profile {
    #[verifier::type_invariant]
    spec fn wf(self) -> bool {
        self.fallback < self.groups.len()
    }

    pub open(crate) spec fn spec_name(&self) -> Seq<char> {
        self.name@
    }

    pub open(crate) spec fn spec_description(&self) -> Option<Seq<char>> {
        match self.description {
            Some(d) => Some(d@),
            None => None,
        }
    }

    pub open(crate) spec fn spec_groups(&self) -> Seq<GroupView> {
        self.groups@.map_values(|g: Group| g@)
    }

    pub open(crate) spec fn spec_fallback(&self) -> int {
        self.fallback as int
    }

    pub open(crate) spec fn spec_normalize(&self) -> Normalize {
        self.normalize
    }

    pub open(crate) spec fn spec_layout(&self) -> Layout {
        self.layout
    }

    pub open(crate) spec fn spec_stylesheet(&self) -> Option<Stylesheet> {
        self.stylesheet
    }

    pub open(crate) spec fn classify_key(&self, key: Seq<char>) -> Classification {
        spec_classify(self.spec_groups(), self.spec_fallback(), key)
    }

    pub fn name(&self) -> (r: String)
        ensures
            r@ == self.spec_name(),
    {
        chars_to_string(self.name.as_slice())
    }

    pub fn description(&self) -> (r: Option<String>)
        ensures
            (match r {
                Some(d) => Some(d@),
                None => None,
            }) == self.spec_description(),
    {
        match &self.description {
            Some(d) => Some(chars_to_string(d.as_slice())),
            None => None,
        }
    }

    /// Group names in priority order.
    pub fn group_names(&self) -> (r: Vec<String>)
        ensures
            r.len() == self.spec_groups().len(),
            forall|i: int| 0 <= i < r.len() ==> #[trigger] r[i]@ == self.spec_groups()[i].name,
    {
        let mut r: Vec<String> = Vec::new();
        let mut i: usize = 0;
        while i < self.groups.len()
            invariant
                i <= self.groups.len(),
                r.len() == i,
                forall|j: int| 0 <= j < i ==> #[trigger] r[j]@ == self.groups@[j].name@,
            decreases self.groups.len() - i,
        {
            r.push(chars_to_string(self.groups[i].name.as_slice()));
            i += 1;
        }
        r
    }

    /// Number of groups.
    pub fn group_count(&self) -> (r: usize)
        ensures
            r == self.spec_groups().len(),
            r > 0,
    {
        proof {
            use_type_invariant(self);
        }
        self.groups.len()
    }

    pub fn group_sort(&self, group: usize) -> (r: GroupSort)
        requires
            group < self.spec_groups().len(),
        ensures
            r == self.spec_groups()[group as int].sort,
    {
        self.groups[group].sort
    }

    pub fn group_spread_safe(&self, group: usize) -> (r: bool)
        requires
            group < self.spec_groups().len(),
        ensures
            r == self.spec_groups()[group as int].spread_safe,
    {
        self.groups[group].spread_safe
    }

    /// Classifies a normalized, lowercased attribute key.
    pub fn classify(&self, key: &[char]) -> (c: Classification)
        ensures
            c == self.classify_key(key@),
            c.group < self.spec_groups().len(),
    {
        proof {
            use_type_invariant(self);
        }
        let ghost gs = self.spec_groups();
        let mut best: Option<(usize, Classification)> = None;
        let mut g: usize = 0;
        while g < self.groups.len()
            invariant
                g <= self.groups.len(),
                gs == self.spec_groups(),
                opt_view(best) == best_upto(gs, key@, g as int),
                best matches Some(b) ==> b.1.group < g,
            decreases self.groups.len() - g,
        {
            let group = &self.groups[g];
            let ghost start = opt_view(best);
            let mut p: usize = 0;
            while p < group.patterns.len()
                invariant
                    g < self.groups.len(),
                    gs == self.spec_groups(),
                    *group == self.groups@[g as int],
                    p <= group.patterns.len(),
                    opt_view(best) == best_in_group(gs, key@, g as int, p as int, start),
                    best matches Some(b) ==> b.1.group <= g,
                decreases group.patterns.len() - p,
            {
                let score = specificity(&group.patterns[p], key);
                if let Some(s) = score {
                    let replace = match best {
                        None => true,
                        Some(b) => s > b.0,
                    };
                    if replace {
                        best = Some((s, Classification { group: g, pattern: p }));
                    }
                }
                p += 1;
            }
            g += 1;
        }
        match best {
            Some(b) => b.1,
            None => Classification { group: self.fallback, pattern: 0 },
        }
    }
}

/// `best` with its score as an integer.
pub open spec fn opt_view(best: Option<(usize, Classification)>) -> Option<(int, Classification)> {
    match best {
        Some(b) => Some((b.0 as int, b.1)),
        None => None,
    }
}

/// The match specificity of `pattern` for `key`.
pub fn specificity(pattern: &Pattern, key: &[char]) -> (r: Option<usize>)
    ensures
        (match r {
            Some(s) => Some(s as int),
            None => None,
        }) == spec_specificity(pattern@, key@),
{
    match pattern {
        Pattern::Exact(name) => if seq_eq(name.as_slice(), key) {
            Some(usize::MAX)
        } else {
            None
        },
        Pattern::Prefix(prefix) => if matches_at_exec(key, 0, prefix.as_slice()) {
            Some(prefix.len())
        } else {
            None
        },
    }
}

/// One group of a profile as written in YAML.
#[derive(Clone, Debug)]
pub struct RawGroup {
    pub name: String,
    pub patterns: Vec<String>,
    pub sort: GroupSort,
    pub fallback: bool,
    pub spread_safe: bool,
}

/// The `stylesheet.malva` mapping: its keys, and the mapping itself as YAML text.
#[derive(Clone, Debug)]
pub struct RawMalva {
    pub keys: Vec<String>,
    pub yaml: String,
}

/// The `stylesheet` section of a profile as written in YAML.
#[derive(Clone, Debug)]
pub struct RawStylesheet {
    pub declaration_order: Option<DeclarationSort>,
    pub declaration_order_group_by: Option<DeclarationGrouping>,
    pub malva: Option<RawMalva>,
}

/// A profile as written in YAML, before validation.
#[derive(Clone, Debug)]
pub struct RawProfile {
    pub schema_version: u32,
    pub name: String,
    pub description: Option<String>,
    pub normalize: Normalize,
    pub layout: Layout,
    pub groups: Vec<RawGroup>,
    pub stylesheet: Option<RawStylesheet>,
}

/// malva options accepted under `stylesheet.malva`. `declarationOrder` and
/// `declarationOrderGroupBy` are deliberately absent: they live on
/// `stylesheet` itself.
pub open spec fn malva_option_names() -> Seq<Seq<char>> {
    seq![
        "printWidth"@,
        "useTabs"@,
        "indentWidth"@,
        "lineBreak"@,
        "hexCase"@,
        "hexColorLength"@,
        "quotes"@,
        "attrSelector.quotes"@,
        "operatorLineBreak"@,
        "blockSelectorLineBreak"@,
        "omitNumberLeadingZero"@,
        "trailingComma"@,
        "formatComments"@,
        "alignComments"@,
        "lineBreakInPseudoParens"@,
        "singleLineBlockThreshold"@,
        "keyframeSelectorNotation"@,
        "attrValueQuotes"@,
        "preferSingleLine"@,
        "selectors.preferSingleLine"@,
        "functionArgs.preferSingleLine"@,
        "sassContentAtRule.preferSingleLine"@,
        "sassIncludeAtRule.preferSingleLine"@,
        "sassMap.preferSingleLine"@,
        "sassModuleConfig.preferSingleLine"@,
        "sassParams.preferSingleLine"@,
        "lessImportOptions.preferSingleLine"@,
        "lessMixinArgs.preferSingleLine"@,
        "lessMixinParams.preferSingleLine"@,
        "singleLineTopLevelDeclarations"@,
        "fontFamilyNames"@,
        "nthPlusSpacing"@,
        "selectorOverrideCommentDirective"@,
        "ignoreCommentDirective"@,
        "ignoreFileCommentDirective"@,
    ]
}

/// The malva option names accepted under `stylesheet.malva`.
pub fn malva_options() -> (r: Vec<&'static str>)
    ensures
        r@.len() == malva_option_names().len(),
        forall|i: int| 0 <= i < r@.len() ==> #[trigger] r@[i]@ == malva_option_names()[i],
{
    let r = vec![
        "printWidth",
        "useTabs",
        "indentWidth",
        "lineBreak",
        "hexCase",
        "hexColorLength",
        "quotes",
        "attrSelector.quotes",
        "operatorLineBreak",
        "blockSelectorLineBreak",
        "omitNumberLeadingZero",
        "trailingComma",
        "formatComments",
        "alignComments",
        "lineBreakInPseudoParens",
        "singleLineBlockThreshold",
        "keyframeSelectorNotation",
        "attrValueQuotes",
        "preferSingleLine",
        "selectors.preferSingleLine",
        "functionArgs.preferSingleLine",
        "sassContentAtRule.preferSingleLine",
        "sassIncludeAtRule.preferSingleLine",
        "sassMap.preferSingleLine",
        "sassModuleConfig.preferSingleLine",
        "sassParams.preferSingleLine",
        "lessImportOptions.preferSingleLine",
        "lessMixinArgs.preferSingleLine",
        "lessMixinParams.preferSingleLine",
        "singleLineTopLevelDeclarations",
        "fontFamilyNames",
        "nthPlusSpacing",
        "selectorOverrideCommentDirective",
        "ignoreCommentDirective",
        "ignoreFileCommentDirective",
    ];
    r
}

fn is_malva_option(key: &[char]) -> (b: bool)
    ensures
        b == malva_option_names().contains(key@),
{
    let names = malva_options();
    let mut i: usize = 0;
    while i < names.len()
        invariant
            i <= names.len() == malva_option_names().len(),
            forall|j: int| 0 <= j < names@.len() ==> #[trigger] names@[j]@ == malva_option_names()[j],
            forall|j: int| 0 <= j < i ==> malva_option_names()[j] != key@,
        decreases names.len() - i,
    {
        if eq_str(key, names[i]) {
            assert(malva_option_names()[i as int] == key@);
            return true;
        }
        i += 1;
    }
    false
}

/// `pattern` compiled: lowercased; a `*` is allowed only as the last character,
/// where it makes a prefix pattern.
pub open spec fn spec_compile(group: Seq<char>, pattern: Seq<char>) -> Result<
    PatternView,
    ProfileErrorView,
> {
    let low = lower_seq(pattern);
    match find_from(low, 0, seq!['*']) {
        None => Ok(PatternView::Exact(low)),
        Some(i) => if i == low.len() - 1 {
            Ok(PatternView::Prefix(low.take(i)))
        } else {
            Err(ProfileErrorView::Pattern { group, pattern: low })
        },
    }
}

/// Compiles one `match` pattern of group `group`.
pub fn compile_pattern(group: &[char], pattern: &[char]) -> (r: Result<Pattern, ProfileError>)
    ensures
        (match r {
            Ok(p) => Ok(p@),
            Err(e) => Err(e@),
        }) == spec_compile(group@, pattern@),
{
    let low = lower_vec(pattern);
    let star = vec!['*'];
    assert(star@ == seq!['*']);
    proof {
        lemma_find_from_bounds(low@, 0, star@);
    }
    match find_exec(low.as_slice(), 0, star.as_slice()) {
        None => Ok(Pattern::Exact(low)),
        Some(i) => if i == low.len() - 1 {
            let prefix = slice_vec(low.as_slice(), 0, i);
            assert(prefix@ == low@.take(i as int));
            Ok(Pattern::Prefix(prefix))
        } else {
            Err(
                ProfileError::Pattern {
                    group: chars_to_string(group),
                    pattern: chars_to_string(low.as_slice()),
                },
            )
        },
    }
}

/// Number of groups among `gs[..n]` marked as the fallback.
pub open spec fn fallback_count(gs: Seq<RawGroup>, n: int) -> nat
    decreases n,
{
    if n <= 0 {
        0
    } else {
        fallback_count(gs, n - 1) + if gs[n - 1].fallback {
            1nat
        } else {
            0nat
        }
    }
}

/// The profile or one of its groups has an empty name.
pub open spec fn has_empty_name(raw: RawProfile) -> bool {
    raw.name@.len() == 0 || exists|i: int|
        0 <= i < raw.groups@.len() && (#[trigger] raw.groups@[i]).name@.len() == 0
}

/// First pattern error among patterns `k..` of a group.
pub open spec fn pattern_error(group: Seq<char>, pats: Seq<String>, k: int) -> Option<
    ProfileErrorView,
>
    decreases pats.len() - k,
{
    if k < 0 || k >= pats.len() {
        None
    } else {
        match spec_compile(group, pats[k]@) {
            Err(e) => Some(e),
            Ok(_) => pattern_error(group, pats, k + 1),
        }
    }
}

/// What is wrong with group `i`, checked in order: a name already used by an
/// earlier group, no patterns without being the fallback, a bad pattern.
pub open spec fn group_error(gs: Seq<RawGroup>, i: int) -> Option<ProfileErrorView> {
    let g = gs[i];
    if exists|j: int| 0 <= j < i && (#[trigger] gs[j]).name@ == g.name@ {
        Some(ProfileErrorView::DuplicateGroup(g.name@))
    } else if g.patterns@.len() == 0 && !g.fallback {
        Some(ProfileErrorView::EmptyGroup(g.name@))
    } else {
        pattern_error(g.name@, g.patterns@, 0)
    }
}

/// The first error among groups `gs[..n]`.
pub open spec fn groups_error(gs: Seq<RawGroup>, n: int) -> Option<ProfileErrorView>
    decreases n,
{
    if n <= 0 {
        None
    } else {
        match groups_error(gs, n - 1) {
            Some(e) => Some(e),
            None => group_error(gs, n - 1),
        }
    }
}

/// First key of `keys[k..]` that malva does not accept under `stylesheet.malva`.
pub open spec fn bad_malva_key(keys: Seq<String>, k: int) -> Option<Seq<char>>
    decreases keys.len() - k,
{
    if k < 0 || k >= keys.len() {
        None
    } else if !malva_option_names().contains(keys[k]@) {
        Some(keys[k]@)
    } else {
        bad_malva_key(keys, k + 1)
    }
}

/// What is wrong with the `stylesheet` section: an unknown malva key, or a
/// mapping malva rejects.
pub open spec fn stylesheet_error(st: Option<RawStylesheet>) -> Option<ProfileErrorView> {
    match st {
        None => None,
        Some(s) => match s.malva {
            None => None,
            Some(m) => match bad_malva_key(m.keys@, 0) {
                Some(k) => Some(ProfileErrorView::MalvaOption(k)),
                None => if malva_accepts(m.yaml@) {
                    None
                } else {
                    Some(ProfileErrorView::Yaml)
                },
            },
        },
    }
}

/// The error a raw profile is rejected with, checked in this order: schema
/// version, exactly one fallback group, non-empty names, the groups one by
/// one, the stylesheet section. `None` when the profile is valid.
pub open spec fn spec_profile_error(raw: RawProfile) -> Option<ProfileErrorView> {
    if raw.schema_version != SCHEMA_VERSION {
        Some(ProfileErrorView::SchemaVersion(raw.schema_version))
    } else if fallback_count(raw.groups@, raw.groups@.len() as int) != 1 {
        Some(ProfileErrorView::Fallback(fallback_count(raw.groups@, raw.groups@.len() as int)))
    } else if has_empty_name(raw) {
        Some(ProfileErrorView::EmptyName)
    } else {
        match groups_error(raw.groups@, raw.groups@.len() as int) {
            Some(e) => Some(e),
            None => stylesheet_error(raw.stylesheet),
        }
    }
}

/// The settings a raw stylesheet section stands for.
pub open spec fn style_source_of(s: RawStylesheet) -> StyleSource {
    StyleSource {
        declaration_order: s.declaration_order,
        declaration_order_group_by: s.declaration_order_group_by,
        malva_yaml: match s.malva {
            Some(m) => Some(m.yaml),
            None => None,
        },
    }
}

/// The compiled group `i` of a valid raw profile.
pub open spec fn compiled_group(gs: Seq<RawGroup>, i: int, g: GroupView) -> bool {
    &&& g.name == gs[i].name@
    &&& g.patterns.len() == gs[i].patterns@.len()
    &&& forall|k: int|
        0 <= k < g.patterns.len() ==> spec_compile(gs[i].name@, gs[i].patterns@[k]@) == Ok::<
            PatternView,
            ProfileErrorView,
        >(#[trigger] g.patterns[k])
    &&& g.sort == gs[i].sort
    &&& g.spread_safe == gs[i].spread_safe
}

proof fn lemma_groups_error_prefix(gs: Seq<RawGroup>, n: int, m: int)
    requires
        0 <= m <= n,
        groups_error(gs, n) is None,
    ensures
        groups_error(gs, m) is None,
    decreases n - m,
{
    if m < n {
        lemma_groups_error_prefix(gs, n - 1, m);
    }
}

proof fn lemma_fallback_count_index(gs: Seq<RawGroup>, n: int, i: int)
    requires
        0 <= i < n <= gs.len(),
        gs[i].fallback,
    ensures
        fallback_count(gs, n) >= 1,
        fallback_count(gs, n) == 1 ==> forall|j: int| 0 <= j < n && j != i ==> !gs[j].fallback,
    decreases n,
{
    if n - 1 > i {
        lemma_fallback_count_index(gs, n - 1, i);
    }
    if n - 1 == i {
        if fallback_count(gs, n) == 1 {
            assert forall|j: int| 0 <= j < n && j != i implies !gs[j].fallback by {
                if gs[j].fallback {
                    lemma_fallback_count_index(gs, n - 1, j);
                }
            }
        }
    } else {
        if fallback_count(gs, n) == 1 && gs[n - 1].fallback {
            assert(fallback_count(gs, n - 1) == 0);
        }
    }
}

impl Profile {
    /// Validates a profile's plain definition and compiles its patterns.
    pub fn from_raw(raw: RawProfile) -> (r: Result<Profile, ProfileError>)
        ensures
            (match r {
                Ok(_) => None,
                Err(e) => Some(e@),
            }) == spec_profile_error(raw),
            r matches Ok(p) ==> {
                &&& p.spec_name() == raw.name@
                &&& p.spec_description() == (match raw.description {
                    Some(d) => Some(d@),
                    None => None,
                })
                &&& p.spec_groups().len() == raw.groups@.len()
                &&& forall|i: int|
                    0 <= i < raw.groups@.len() ==> compiled_group(
                        raw.groups@,
                        i,
                        #[trigger] p.spec_groups()[i],
                    )
                &&& raw.groups@[p.spec_fallback()].fallback
                &&& valid_groups(p.spec_groups(), p.spec_fallback())
                &&& p.spec_normalize() == raw.normalize
                &&& p.spec_layout() == raw.layout
                &&& p.spec_stylesheet().is_some() == raw.stylesheet.is_some()
                &&& (p.spec_stylesheet() matches Some(s) ==> s.spec_source() == style_source_of(
                    raw.stylesheet->0,
                ))
            },
    {
        if raw.schema_version != SCHEMA_VERSION {
            return Err(ProfileError::SchemaVersion(raw.schema_version));
        }
        let n = raw.groups.len();
        let mut count: usize = 0;
        let mut fallback: usize = 0;
        let mut i: usize = 0;
        while i < n
            invariant
                i <= n == raw.groups@.len(),
                count == fallback_count(raw.groups@, i as int),
                count <= i,
                count > 0 ==> fallback < i && raw.groups@[fallback as int].fallback,
            decreases n - i,
        {
            if raw.groups[i].fallback {
                if count == 0 {
                    fallback = i;
                }
                count += 1;
            }
            i += 1;
        }
        if count != 1 {
            return Err(ProfileError::Fallback(count));
        }
        let name = to_chars(raw.name.as_str());
        let mut empty = name.len() == 0;
        let mut i: usize = 0;
        while i < n
            invariant
                i <= n == raw.groups@.len(),
                name@ == raw.name@,
                empty == (raw.name@.len() == 0 || exists|j: int|
                    0 <= j < i && (#[trigger] raw.groups@[j]).name@.len() == 0),
            decreases n - i,
        {
            if to_chars(raw.groups[i].name.as_str()).len() == 0 {
                empty = true;
            }
            i += 1;
        }
        if empty {
            return Err(ProfileError::EmptyName);
        }
        let mut groups: Vec<Group> = Vec::new();
        let mut i: usize = 0;
        while i < n
            invariant
                raw.schema_version == SCHEMA_VERSION,
                fallback_count(raw.groups@, raw.groups@.len() as int) == 1,
                !has_empty_name(raw),
                i <= n == raw.groups@.len(),
                groups.len() == i,
                groups_error(raw.groups@, i as int) is None,
                forall|j: int|
                    0 <= j < i ==> compiled_group(raw.groups@, j, #[trigger] groups@[j]@),
            decreases n - i,
        {
            let raw_group = &raw.groups[i];
            let group_name = to_chars(raw_group.name.as_str());
            let mut j: usize = 0;
            while j < i
                invariant
                    raw.schema_version == SCHEMA_VERSION,
                    fallback_count(raw.groups@, raw.groups@.len() as int) == 1,
                    !has_empty_name(raw),
                    groups_error(raw.groups@, i as int) is None,
                    i < n == raw.groups@.len(),
                    *raw_group == raw.groups@[i as int],
                    j <= i,
                    group_name@ == raw.groups@[i as int].name@,
                    forall|k: int| 0 <= k < j ==> raw.groups@[k].name@ != group_name@,
                decreases i - j,
            {
                let other = to_chars(raw.groups[j].name.as_str());
                if seq_eq(other.as_slice(), group_name.as_slice()) {
                    proof {
                        assert(raw.groups@[j as int].name@ == raw.groups@[i as int].name@);
                        assert(group_error(raw.groups@, i as int) == Some(
                            ProfileErrorView::DuplicateGroup(group_name@),
                        ));
                        assert(groups_error(raw.groups@, i + 1) == group_error(
                            raw.groups@,
                            i as int,
                        ));
                        lemma_groups_error_tail(raw.groups@, i + 1, n as int);
                    }
                    return Err(ProfileError::DuplicateGroup(raw_group.name.clone()));
                }
                j += 1;
            }
            if raw_group.patterns.len() == 0 && !raw_group.fallback {
                proof {
                    lemma_groups_error_tail(raw.groups@, i + 1, n as int);
                }
                return Err(ProfileError::EmptyGroup(raw_group.name.clone()));
            }
            let mut patterns: Vec<Pattern> = Vec::new();
            let mut k: usize = 0;
            while k < raw_group.patterns.len()
                invariant
                    raw.schema_version == SCHEMA_VERSION,
                    fallback_count(raw.groups@, raw.groups@.len() as int) == 1,
                    !has_empty_name(raw),
                    groups_error(raw.groups@, i as int) is None,
                    !(exists|j: int|
                        0 <= j < i && (#[trigger] raw.groups@[j]).name@ == raw.groups@[i as int].name@),
                    !(raw.groups@[i as int].patterns@.len() == 0 && !raw.groups@[i as int].fallback),
                    i < n == raw.groups@.len(),
                    *raw_group == raw.groups@[i as int],
                    group_name@ == raw_group.name@,
                    k <= raw_group.patterns.len(),
                    patterns.len() == k,
                    pattern_error(group_name@, raw_group.patterns@, 0) == pattern_error(
                        group_name@,
                        raw_group.patterns@,
                        k as int,
                    ),
                    forall|q: int|
                        0 <= q < k ==> spec_compile(group_name@, raw_group.patterns@[q]@) == Ok::<
                            PatternView,
                            ProfileErrorView,
                        >((#[trigger] patterns@[q])@),
                decreases raw_group.patterns.len() - k,
            {
                let pattern = to_chars(raw_group.patterns[k].as_str());
                match compile_pattern(group_name.as_slice(), pattern.as_slice()) {
                    Ok(p) => patterns.push(p),
                    Err(e) => {
                        proof {
                            lemma_groups_error_tail(raw.groups@, i + 1, n as int);
                        }
                        return Err(e);
                    },
                }
                k += 1;
            }
            let group = Group {
                name: group_name,
                patterns,
                sort: raw_group.sort,
                spread_safe: raw_group.spread_safe,
            };
            proof {
                assert(group@.patterns.len() == raw_group.patterns@.len());
                assert forall|q: int| 0 <= q < group@.patterns.len() implies spec_compile(
                    raw_group.name@,
                    raw_group.patterns@[q]@,
                ) == Ok::<PatternView, ProfileErrorView>(#[trigger] group@.patterns[q]) by {
                    assert(group@.patterns[q] == group.patterns@[q]@);
                }
                assert(compiled_group(raw.groups@, i as int, group@));
            }
            groups.push(group);
            i += 1;
        }
        let stylesheet = match &raw.stylesheet {
            None => None,
            Some(s) => match into_stylesheet(s) {
                Ok(sheet) => Some(sheet),
                Err(e) => {
                    return Err(e);
                },
            },
        };
        let description = match &raw.description {
            Some(d) => Some(to_chars(d.as_str())),
            None => None,
        };
        proof {
            lemma_fallback_count_index(raw.groups@, n as int, fallback as int);
        }
        let profile = Profile {
            name,
            description,
            groups,
            fallback,
            normalize: raw.normalize,
            layout: raw.layout,
            stylesheet,
        };
        proof {
            assert forall|j: int| 0 <= j < raw.groups@.len() implies compiled_group(
                raw.groups@,
                j,
                #[trigger] profile.spec_groups()[j],
            ) by {
                assert(profile.spec_groups()[j] == profile.groups@[j]@);
            }
            lemma_raw_groups_valid(raw, fallback as int);
            let gs = profile.spec_groups();
            assert forall|i: int, j: int| 0 <= i < j < gs.len() implies (#[trigger] gs[i]).name != (#[trigger] gs[j]).name by {
                assert(compiled_group(raw.groups@, i, gs[i]));
                assert(compiled_group(raw.groups@, j, gs[j]));
            }
            assert forall|i: int| 0 <= i < gs.len() implies (#[trigger] gs[i]).name.len() > 0 by {
                assert(compiled_group(raw.groups@, i, gs[i]));
            }
            assert forall|i: int| 0 <= i < gs.len() && i != fallback implies (#[trigger] gs[i]).patterns.len() > 0 by {
                assert(compiled_group(raw.groups@, i, gs[i]));
            }
        }
        Ok(profile)
    }
}

/// Groups that passed validation: non-empty, distinct names, and patterns
/// in every group but the fallback.
proof fn lemma_raw_groups_valid(raw: RawProfile, fallback: int)
    requires
        0 <= fallback < raw.groups@.len(),
        raw.groups@[fallback].fallback,
        fallback_count(raw.groups@, raw.groups@.len() as int) == 1,
        !has_empty_name(raw),
        groups_error(raw.groups@, raw.groups@.len() as int) is None,
    ensures
        forall|i: int| 0 <= i < raw.groups@.len() ==> (#[trigger] raw.groups@[i]).name@.len() > 0,
        forall|i: int, j: int|
            0 <= i < j < raw.groups@.len() ==> (#[trigger] raw.groups@[i]).name@ != (
            #[trigger] raw.groups@[j]).name@,
        forall|i: int|
            0 <= i < raw.groups@.len() && i != fallback ==> (#[trigger] raw.groups@[i]).patterns@.len() > 0,
{
    let gs = raw.groups@;
    let n = gs.len() as int;
    lemma_fallback_count_index(gs, n, fallback);
    assert forall|j: int| 0 <= j < n implies group_error(gs, j) is None by {
        lemma_groups_error_prefix(gs, n, j + 1);
    }
    assert forall|i: int, j: int| 0 <= i < j < n implies (#[trigger] gs[i]).name@ != (#[trigger] gs[j]).name@ by {
        assert(group_error(gs, j) is None);
    }
    assert forall|i: int| 0 <= i < n && i != fallback implies (#[trigger] gs[i]).patterns@.len() > 0 by {
        assert(group_error(gs, i) is None);
    }
}

proof fn lemma_groups_error_tail(gs: Seq<RawGroup>, m: int, n: int)
    requires
        0 <= m <= n,
        groups_error(gs, m) is Some,
    ensures
        groups_error(gs, n) == groups_error(gs, m),
    decreases n - m,
{
    if m < n {
        lemma_groups_error_tail(gs, m, n - 1);
    }
}

/// Checks the `stylesheet.malva` keys and builds the malva options.
fn into_stylesheet(s: &RawStylesheet) -> (r: Result<Stylesheet, ProfileError>)
    ensures
        (match r {
            Ok(_) => None,
            Err(e) => Some(e@),
        }) == stylesheet_error(Some(*s)),
        r matches Ok(sheet) ==> sheet.spec_source() == style_source_of(*s),
{
    if let Some(m) = &s.malva {
        let mut k: usize = 0;
        while k < m.keys.len()
            invariant
                s.malva == Some(*m),
                k <= m.keys.len(),
                bad_malva_key(m.keys@, 0) == bad_malva_key(m.keys@, k as int),
            decreases m.keys.len() - k,
        {
            let key = to_chars(m.keys[k].as_str());
            if !is_malva_option(key.as_slice()) {
                assert(bad_malva_key(m.keys@, k as int) == Some(m.keys@[k as int]@));
                return Err(ProfileError::MalvaOption(m.keys[k].clone()));
            }
            k += 1;
        }
    }
    let source = StyleSource {
        declaration_order: s.declaration_order,
        declaration_order_group_by: s.declaration_order_group_by,
        malva_yaml: match &s.malva {
            Some(m) => Some(m.yaml.clone()),
            None => None,
        },
    };
    match build_stylesheet(&source) {
        Ok(sheet) => Ok(sheet),
        Err(e) => Err(ProfileError::Yaml(e)),
    }
}


/// A group of a built-in profile.
pub open spec fn builtin_group(name: Seq<char>, patterns: Seq<PatternView>, sort: GroupSort, spread_safe: bool) -> GroupView {
    GroupView { name, patterns, sort, spread_safe }
}

/// The groups both built-in profiles share, from `class` to `data-*`: the
/// meaning-supplementing and state-bearing attributes, the unmatched rest
/// (the fallback, at index 5 here), ARIA from role to state, and data.
pub open spec fn shared_groups() -> Seq<GroupView> {
    seq![
        builtin_group("class"@, seq![PatternView::Exact("class"@)], GroupSort::Source, false),
        builtin_group(
            "supplementary"@,
            seq![
                PatternView::Exact("alt"@),
                PatternView::Exact("title"@),
                PatternView::Exact("placeholder"@),
            ],
            GroupSort::Listed,
            false,
        ),
        builtin_group(
            "semantic"@,
            seq![
                PatternView::Exact("type"@),
                PatternView::Exact("href"@),
                PatternView::Exact("src"@),
                PatternView::Exact("srcset"@),
            ],
            GroupSort::Listed,
            false,
        ),
        builtin_group(
            "key-value"@,
            seq![
                PatternView::Exact("name"@),
                PatternView::Exact("value"@),
                PatternView::Exact("content"@),
            ],
            GroupSort::Listed,
            false,
        ),
        builtin_group(
            "dimensions"@,
            seq![PatternView::Exact("width"@), PatternView::Exact("height"@)],
            GroupSort::Listed,
            false,
        ),
        builtin_group("other"@, seq![], GroupSort::Source, false),
        builtin_group("aria-role"@, seq![PatternView::Exact("role"@)], GroupSort::Source, false),
        builtin_group(
            "aria-name"@,
            seq![PatternView::Exact("aria-label"@), PatternView::Exact("aria-labelledby"@)],
            GroupSort::Source,
            false,
        ),
        builtin_group(
            "aria-description"@,
            seq![
                PatternView::Exact("aria-describedby"@),
                PatternView::Exact("aria-description"@),
            ],
            GroupSort::Source,
            false,
        ),
        builtin_group("aria-property"@, seq![PatternView::Prefix("aria-"@)], GroupSort::Source, false),
        builtin_group(
            "aria-state"@,
            seq![
                PatternView::Exact("aria-busy"@),
                PatternView::Exact("aria-checked"@),
                PatternView::Exact("aria-current"@),
                PatternView::Exact("aria-disabled"@),
                PatternView::Exact("aria-expanded"@),
                PatternView::Exact("aria-grabbed"@),
                PatternView::Exact("aria-hidden"@),
                PatternView::Exact("aria-invalid"@),
                PatternView::Exact("aria-pressed"@),
                PatternView::Exact("aria-selected"@),
            ],
            GroupSort::Source,
            false,
        ),
        builtin_group("data"@, seq![PatternView::Prefix("data-"@)], GroupSort::Alphabetical, false),
    ]
}

/// The groups of the built-in `html` profile, in priority order.
pub open spec fn html_groups() -> Seq<GroupView> {
    seq![builtin_group("global"@, seq![PatternView::Exact("id"@)], GroupSort::Source, false)]
        + shared_groups() + seq![
        builtin_group("events"@, seq![PatternView::Prefix("on"@)], GroupSort::Source, false),
    ]
}

/// The groups of the built-in `vue` profile, in priority order: the tiers of
/// `vue/attributes-order`, with the shared groups in place of its
/// other-attributes tier.
pub open spec fn vue_groups() -> Seq<GroupView> {
    seq![
        builtin_group(
            "definition"@,
            seq![PatternView::Exact("is"@), PatternView::Exact("v-is"@)],
            GroupSort::Source,
            true,
        ),
        builtin_group("list-rendering"@, seq![PatternView::Exact("v-for"@)], GroupSort::Source, true),
        builtin_group(
            "conditionals"@,
            seq![
                PatternView::Exact("v-if"@),
                PatternView::Exact("v-else-if"@),
                PatternView::Exact("v-else"@),
                PatternView::Exact("v-show"@),
                PatternView::Exact("v-cloak"@),
            ],
            GroupSort::Source,
            true,
        ),
        builtin_group(
            "render-modifiers"@,
            seq![PatternView::Exact("v-pre"@), PatternView::Exact("v-once"@)],
            GroupSort::Source,
            true,
        ),
        builtin_group("global"@, seq![PatternView::Exact("id"@)], GroupSort::Source, false),
        builtin_group(
            "unique"@,
            seq![PatternView::Exact("ref"@), PatternView::Exact("key"@)],
            GroupSort::Source,
            false,
        ),
        builtin_group(
            "slot"@,
            seq![PatternView::Exact("v-slot"@), PatternView::Prefix("v-slot:"@)],
            GroupSort::Source,
            false,
        ),
        builtin_group(
            "two-way-binding"@,
            seq![PatternView::Exact("v-model"@), PatternView::Prefix("v-model:"@)],
            GroupSort::Source,
            false,
        ),
        builtin_group("other-directives"@, seq![PatternView::Prefix("v-"@)], GroupSort::Source, true),
    ] + shared_groups() + seq![
        builtin_group(
            "events"@,
            seq![PatternView::Exact("v-on"@), PatternView::Prefix("v-on:"@)],
            GroupSort::Source,
            false,
        ),
        builtin_group(
            "content"@,
            seq![PatternView::Exact("v-html"@), PatternView::Exact("v-text"@)],
            GroupSort::Source,
            false,
        ),
    ]
}

/// The stylesheet settings of both built-in profiles: SMACSS declaration
/// order, everything else at malva's defaults.
pub open spec fn builtin_style_source() -> StyleSource {
    StyleSource {
        declaration_order: Some(DeclarationSort::Smacss),
        declaration_order_group_by: None,
        malva_yaml: None,
    }
}

/// The layout of the built-in profiles: closing bracket and attributes on
/// their own lines in multiline tags, void elements always self-closed, and
/// in `vue` empty elements and components too.
pub open spec fn builtin_layout(vue: bool) -> Layout {
    let empty = if vue {
        SelfClosing::Always
    } else {
        SelfClosing::Preserve
    };
    Layout {
        closing_bracket_newline: true,
        one_attribute_per_line: true,
        self_closing: SelfClosingRules { void: SelfClosing::Always, normal: empty, component: empty },
    }
}

/// The description of the built-in `vue` profile when `vue`, else of the `html` one.
pub open spec fn builtin_description(vue: bool) -> Seq<char> {
    if vue {
        "Superset of eslint-plugin-vue's vue/attributes-order, with ARIA sub-ordering."@
    } else {
        "Semantic attribute order for plain HTML: identity, class, meaning, state, ARIA, data, events."@
    }
}

impl Profile {
    /// This is the built-in `vue` profile when `vue`, else the built-in `html` profile.
    pub open(crate) spec fn is_builtin(&self, vue: bool) -> bool {
        &&& self.spec_name() == (if vue {
            "vue"@
        } else {
            "html"@
        })
        &&& self.spec_description() == Some(builtin_description(vue))
        &&& self.spec_groups() == (if vue {
            vue_groups()
        } else {
            html_groups()
        })
        &&& self.spec_fallback() == (if vue {
            14int
        } else {
            6int
        })
        &&& self.spec_normalize() == (Normalize {
            directive_shorthand: vue,
            hyphenate_component_props: vue,
        })
        &&& self.spec_layout() == builtin_layout(vue)
        &&& self.spec_stylesheet() matches Some(sheet) && sheet.spec_source() == builtin_style_source()
    }
}

/// The groups follow the rules every profile is validated by: the fallback
/// is one of them, names are non-empty and distinct, and every group but the
/// fallback has a pattern.
pub open spec fn valid_groups(gs: Seq<GroupView>, fallback: int) -> bool {
    &&& 0 <= fallback < gs.len()
    &&& forall|i: int| 0 <= i < gs.len() ==> (#[trigger] gs[i]).name.len() > 0
    &&& forall|i: int, j: int| 0 <= i < j < gs.len() ==> (#[trigger] gs[i]).name != (#[trigger] gs[j]).name
    &&& forall|i: int| 0 <= i < gs.len() && i != fallback ==> (#[trigger] gs[i]).patterns.len() > 0
}

/// The built-in profiles are valid profiles.
pub proof fn lemma_builtin_profiles_valid()
    ensures
        valid_groups(html_groups(), 6),
        valid_groups(vue_groups(), 14),
{
    reveal_strlit("class");
    reveal_strlit("supplementary");
    reveal_strlit("semantic");
    reveal_strlit("key-value");
    reveal_strlit("dimensions");
    reveal_strlit("other");
    reveal_strlit("aria-role");
    reveal_strlit("aria-name");
    reveal_strlit("aria-description");
    reveal_strlit("aria-property");
    reveal_strlit("aria-state");
    reveal_strlit("data");
    reveal_strlit("global");
    reveal_strlit("events");
    reveal_strlit("definition");
    reveal_strlit("list-rendering");
    reveal_strlit("conditionals");
    reveal_strlit("render-modifiers");
    reveal_strlit("unique");
    reveal_strlit("slot");
    reveal_strlit("two-way-binding");
    reveal_strlit("other-directives");
    reveal_strlit("content");
    let h = html_groups();
    let v = vue_groups();
    assert(h.len() == 14);
    assert(v.len() == 23);
    assert forall|i: int, j: int| 0 <= i < j < h.len() implies (#[trigger] h[i]).name != (#[trigger] h[j]).name by {
        assert(h[i].name.len() != h[j].name.len() || h[i].name[0] != h[j].name[0] || h[i].name[1] != h[j].name[1]
            || h[i].name[5] != h[j].name[5] || h[i].name[6] != h[j].name[6]);
    }
    assert forall|i: int, j: int| 0 <= i < j < v.len() implies (#[trigger] v[i]).name != (#[trigger] v[j]).name by {
        assert(v[i].name.len() != v[j].name.len() || v[i].name[0] != v[j].name[0] || v[i].name[1] != v[j].name[1]
            || v[i].name[5] != v[j].name[5] || v[i].name[6] != v[j].name[6]);
    }
}

fn exact(name: &str) -> (p: Pattern)
    ensures
        p@ == PatternView::Exact(name@),
{
    Pattern::Exact(to_chars(name))
}

fn prefix(name: &str) -> (p: Pattern)
    ensures
        p@ == PatternView::Prefix(name@),
{
    Pattern::Prefix(to_chars(name))
}

fn group(name: &str, patterns: Vec<Pattern>, sort: GroupSort, spread_safe: bool) -> (g: Group)
    ensures
        g@ == builtin_group(name@, patterns@.map_values(|p: Pattern| p@), sort, spread_safe),
{
    Group { name: to_chars(name), patterns, sort, spread_safe }
}

fn shared_groups_exec() -> (r: Vec<Group>)
    ensures
        r@.map_values(|g: Group| g@) =~~= shared_groups(),
{
    let r = vec![
        group("class", vec![exact("class")], GroupSort::Source, false),
        group(
            "supplementary",
            vec![exact("alt"), exact("title"), exact("placeholder")],
            GroupSort::Listed,
            false,
        ),
        group(
            "semantic",
            vec![exact("type"), exact("href"), exact("src"), exact("srcset")],
            GroupSort::Listed,
            false,
        ),
        group(
            "key-value",
            vec![exact("name"), exact("value"), exact("content")],
            GroupSort::Listed,
            false,
        ),
        group("dimensions", vec![exact("width"), exact("height")], GroupSort::Listed, false),
        group("other", vec![], GroupSort::Source, false),
        group("aria-role", vec![exact("role")], GroupSort::Source, false),
        group(
            "aria-name",
            vec![exact("aria-label"), exact("aria-labelledby")],
            GroupSort::Source,
            false,
        ),
        group(
            "aria-description",
            vec![exact("aria-describedby"), exact("aria-description")],
            GroupSort::Source,
            false,
        ),
        group("aria-property", vec![prefix("aria-")], GroupSort::Source, false),
        group(
            "aria-state",
            vec![
                exact("aria-busy"),
                exact("aria-checked"),
                exact("aria-current"),
                exact("aria-disabled"),
                exact("aria-expanded"),
                exact("aria-grabbed"),
                exact("aria-hidden"),
                exact("aria-invalid"),
                exact("aria-pressed"),
                exact("aria-selected"),
            ],
            GroupSort::Source,
            false,
        ),
        group("data", vec![prefix("data-")], GroupSort::Alphabetical, false),
    ];
    r
}


/// Builds the settings of a built-in profile around `groups`.
fn builtin_profile(name: &str, description: &str, groups: Vec<Group>, fallback: usize, vue: bool) -> (r: Profile)
    requires
        fallback < groups.len(),
        description@ == builtin_description(vue),
        name@ == (if vue {
            "vue"@
        } else {
            "html"@
        }),
        groups@.map_values(|g: Group| g@) == (if vue {
            vue_groups()
        } else {
            html_groups()
        }),
        fallback == (if vue {
            14int
        } else {
            6int
        }),
    ensures
        r.is_builtin(vue),
{
    let source = StyleSource {
        declaration_order: Some(DeclarationSort::Smacss),
        declaration_order_group_by: None,
        malva_yaml: None,
    };
    let sheet = build_stylesheet(&source);
    assert(sheet is Ok);
    let sheet = sheet.unwrap();
    let empty = if vue {
        SelfClosing::Always
    } else {
        SelfClosing::Preserve
    };
    Profile {
        name: to_chars(name),
        description: Some(to_chars(description)),
        groups,
        fallback,
        normalize: Normalize { directive_shorthand: vue, hyphenate_component_props: vue },
        layout: Layout {
            closing_bracket_newline: true,
            one_attribute_per_line: true,
            self_closing: SelfClosingRules { void: SelfClosing::Always, normal: empty, component: empty },
        },
        stylesheet: Some(sheet),
    }
}

impl Profile {
    /// The built-in plain HTML profile.
    pub fn html() -> (r: Profile)
        ensures
            r.is_builtin(false),
    {
        let mut groups = vec![group("global", vec![exact("id")], GroupSort::Source, false)];
        let mut shared = shared_groups_exec();
        groups.append(&mut shared);
        groups.push(group("events", vec![prefix("on")], GroupSort::Source, false));
        assert(groups@.map_values(|g: Group| g@) =~~= html_groups());
        builtin_profile(
            "html",
            "Semantic attribute order for plain HTML: identity, class, meaning, state, ARIA, data, events.",
            groups,
            6,
            false,
        )
    }

    /// The built-in Vue profile (superset of `vue/attributes-order`).
    pub fn vue() -> (r: Profile)
        ensures
            r.is_builtin(true),
    {
        let mut groups = vec![
            group("definition", vec![exact("is"), exact("v-is")], GroupSort::Source, true),
            group("list-rendering", vec![exact("v-for")], GroupSort::Source, true),
            group(
                "conditionals",
                vec![exact("v-if"), exact("v-else-if"), exact("v-else"), exact("v-show"), exact("v-cloak")],
                GroupSort::Source,
                true,
            ),
            group("render-modifiers", vec![exact("v-pre"), exact("v-once")], GroupSort::Source, true),
            group("global", vec![exact("id")], GroupSort::Source, false),
            group("unique", vec![exact("ref"), exact("key")], GroupSort::Source, false),
            group("slot", vec![exact("v-slot"), prefix("v-slot:")], GroupSort::Source, false),
            group("two-way-binding", vec![exact("v-model"), prefix("v-model:")], GroupSort::Source, false),
            group("other-directives", vec![prefix("v-")], GroupSort::Source, true),
        ];
        let mut shared = shared_groups_exec();
        groups.append(&mut shared);
        groups.push(group("events", vec![exact("v-on"), prefix("v-on:")], GroupSort::Source, false));
        groups.push(group("content", vec![exact("v-html"), exact("v-text")], GroupSort::Source, false));
        assert(groups@.map_values(|g: Group| g@) =~~= vue_groups());
        builtin_profile(
            "vue",
            "Superset of eslint-plugin-vue's vue/attributes-order, with ARIA sub-ordering.",
            groups,
            14,
            true,
        )
    }

    /// A built-in profile by name: `html` or `vue`.
    pub fn builtin(name: &str) -> (r: Option<Profile>)
        ensures
            r is Some <==> (name@ == "html"@ || name@ == "vue"@),
            r matches Some(p) ==> p.is_builtin(name@ == "vue"@),
    {
        let chars = to_chars(name);
        proof {
            reveal_strlit("html");
            reveal_strlit("vue");
            assert("html"@.len() != "vue"@.len());
        }
        if eq_str(chars.as_slice(), "html") {
            Some(Profile::html())
        } else if eq_str(chars.as_slice(), "vue") {
            Some(Profile::vue())
        } else {
            None
        }
    }
}

} // verus!
