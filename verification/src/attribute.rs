//! Attribute name normalization and classification keys.

use vstd::prelude::*;

use crate::profile::Normalize;
use crate::text::{
    at_str, chars_to_string, eq_str, is_alnum, is_alnum_exec, is_upper, is_upper_exec, lower,
    lower_exec, lower_seq, lower_vec, matches_at_exec, push_all, push_range, slice_vec,
    starts_with, to_chars,
};

verus! {

/// What the ordering logic needs to know about one attribute.
#[derive(Clone, Debug)]
pub struct Key {
    /// Lowercased key used for classification and clustering.
    pub name: Vec<char>,
    /// Bound form (`:foo`, `v-bind:foo`, `.foo`) of an attribute.
    pub bound: bool,
    /// `v-bind="object"` spread; a reordering boundary.
    pub spread: bool,
}

/// The mathematical content of a [`Key`].
pub struct KeyView {
    pub name: Seq<char>,
    pub bound: bool,
    pub spread: bool,
}

impl View for Key {
    type V = KeyView;

    open spec fn view(&self) -> KeyView {
        KeyView { name: self.name@, bound: self.bound, spread: self.spread }
    }
}

/// Bracket nesting depth after reading `s[..i]`; `]` never takes it below zero.
pub open spec fn bracket_depth(s: Seq<char>, i: int) -> nat
    decreases i,
{
    if i <= 0 || i > s.len() {
        0
    } else {
        let d = bracket_depth(s, i - 1);
        if s[i - 1] == '[' {
            d + 1
        } else if s[i - 1] == ']' {
            if d > 0 {
                (d - 1) as nat
            } else {
                0
            }
        } else {
            d
        }
    }
}

/// `s[i]` starts a `.modifier` suffix: a `.` outside brackets, not at the start.
pub open spec fn is_modifier_dot(s: Seq<char>, i: int) -> bool {
    0 < i < s.len() && s[i] == '.' && bracket_depth(s, i) == 0
}

/// Index of the first modifier dot at or after `i`, or `s.len()`.
pub open spec fn modifier_cut(s: Seq<char>, i: int) -> int
    decreases s.len() - i,
{
    if i >= s.len() {
        s.len() as int
    } else if is_modifier_dot(s, i) {
        i
    } else {
        modifier_cut(s, i + 1)
    }
}

/// `s` without its `.modifier` suffixes; dynamic arguments like `[a.b]` stay intact.
pub open spec fn strip_modifiers(s: Seq<char>) -> Seq<char> {
    s.take(modifier_cut(s, 0))
}

/// Key of a bound argument: `:arg`, `.arg`, `v-bind:arg`.
pub open spec fn bound_key(arg: Seq<char>) -> KeyView {
    KeyView { name: lower_seq(strip_modifiers(arg)), bound: true, spread: false }
}

/// Key of a directive argument: `v-on:arg`, `v-slot:arg`.
pub open spec fn directive_key(prefix: Seq<char>, arg: Seq<char>) -> KeyView {
    KeyView { name: prefix + lower_seq(strip_modifiers(arg)), bound: false, spread: false }
}

/// The classification key of an attribute name.
///
/// Binding prefixes and modifiers are stripped so that `class` and `:class`
/// share a key. Events map to `v-on:<event>` and slots to `v-slot:<name>`;
/// other directives keep their name without modifiers, and `v-bind` alone is
/// the spread form.
pub open spec fn spec_key_of(n: Seq<char>) -> KeyView {
    if starts_with(n, "v-bind:"@) {
        bound_key(n.skip("v-bind:"@.len() as int))
    } else if n.len() > 1 && (n[0] == ':' || n[0] == '.') {
        bound_key(n.skip(1))
    } else if starts_with(n, "v-on:"@) {
        directive_key("v-on:"@, n.skip("v-on:"@.len() as int))
    } else if n.len() > 0 && n[0] == '@' {
        directive_key("v-on:"@, n.skip(1))
    } else if starts_with(n, "v-slot:"@) {
        directive_key("v-slot:"@, n.skip("v-slot:"@.len() as int))
    } else if n.len() > 0 && n[0] == '#' {
        directive_key("v-slot:"@, n.skip(1))
    } else if starts_with(n, "v-"@) {
        let name = lower_seq(strip_modifiers(n));
        KeyView { name, bound: false, spread: name == "v-bind"@ }
    } else {
        KeyView { name: lower_seq(n), bound: false, spread: false }
    }
}

/// Index where the `.modifier` suffixes of `s` begin (`s.len()` if none).
pub fn modifier_cut_exec(s: &[char]) -> (r: usize)
    ensures
        r == modifier_cut(s@, 0),
        r <= s.len(),
{
    let mut depth: usize = 0;
    let mut i: usize = 0;
    while i < s.len()
        invariant
            i <= s.len(),
            depth == bracket_depth(s@, i as int),
            depth <= i,
            modifier_cut(s@, 0) == modifier_cut(s@, i as int),
        decreases s.len() - i,
    {
        let c = s[i];
        if c == '.' && depth == 0 && i > 0 {
            return i;
        }
        if c == '[' {
            depth += 1;
        } else if c == ']' {
            if depth > 0 {
                depth -= 1;
            }
        }
        i += 1;
    }
    s.len()
}

fn strip_modifiers_exec(s: &[char]) -> (r: Vec<char>)
    ensures
        r@ == strip_modifiers(s@),
{
    let cut = modifier_cut_exec(s);
    slice_vec(s, 0, cut)
}

/// Derives the classification key from an attribute name.
pub fn key_of_chars(n: &[char]) -> (k: Key)
    ensures
        k@ == spec_key_of(n@),
{
    let v_bind = to_chars("v-bind:");
    let v_on = to_chars("v-on:");
    let v_slot = to_chars("v-slot:");
    if matches_at_exec(n, 0, v_bind.as_slice()) {
        let arg = slice_vec(n, v_bind.len(), n.len());
        return bound_key_exec(arg.as_slice());
    }
    if n.len() > 1 && (n[0] == ':' || n[0] == '.') {
        let arg = slice_vec(n, 1, n.len());
        return bound_key_exec(arg.as_slice());
    }
    if matches_at_exec(n, 0, v_on.as_slice()) {
        let arg = slice_vec(n, v_on.len(), n.len());
        return directive_key_exec(v_on, arg.as_slice());
    }
    if n.len() > 0 && n[0] == '@' {
        let arg = slice_vec(n, 1, n.len());
        return directive_key_exec(v_on, arg.as_slice());
    }
    if matches_at_exec(n, 0, v_slot.as_slice()) {
        let arg = slice_vec(n, v_slot.len(), n.len());
        return directive_key_exec(v_slot, arg.as_slice());
    }
    if n.len() > 0 && n[0] == '#' {
        let arg = slice_vec(n, 1, n.len());
        return directive_key_exec(v_slot, arg.as_slice());
    }
    if at_str(n, 0, "v-") {
        let stripped = strip_modifiers_exec(n);
        let name = lower_vec(stripped.as_slice());
        let spread = eq_str(name.as_slice(), "v-bind");
        return Key { name, bound: false, spread };
    }
    Key { name: lower_vec(n), bound: false, spread: false }
}

fn bound_key_exec(arg: &[char]) -> (k: Key)
    ensures
        k@ == bound_key(arg@),
{
    let stripped = strip_modifiers_exec(arg);
    Key { name: lower_vec(stripped.as_slice()), bound: true, spread: false }
}

fn directive_key_exec(prefix: Vec<char>, arg: &[char]) -> (k: Key)
    ensures
        k@ == directive_key(prefix@, arg@),
{
    let stripped = strip_modifiers_exec(arg);
    let lowered = lower_vec(stripped.as_slice());
    let mut name = prefix;
    push_all(&mut name, lowered.as_slice());
    Key { name, bound: false, spread: false }
}

/// Derives the classification key from an attribute name.
///
/// Binding prefixes and modifiers are stripped so that `class` and `:class`
/// share a key. Events map to `v-on:<event>` and slots to `v-slot:<name>`.
pub fn key_of(name: &str) -> (k: Key)
    ensures
        k@ == spec_key_of(name@),
{
    let n = to_chars(name);
    key_of_chars(n.as_slice())
}

/// A word character for Vue's `\B` boundary: ASCII alphanumeric or `_`.
pub open spec fn is_word(c: char) -> bool {
    is_alnum(c) || c == '_'
}

/// What `hyphenate` writes for `s[i]`.
pub open spec fn hyphen_piece(s: Seq<char>, i: int) -> Seq<char> {
    if is_upper(s[i]) {
        if i > 0 && is_word(s[i - 1]) {
            seq!['-', lower(s[i])]
        } else {
            seq![lower(s[i])]
        }
    } else {
        seq![s[i]]
    }
}

/// camelCase → kebab-case, matching Vue's `hyphenate` (`/\B([A-Z])/g`):
/// an uppercase ASCII letter is lowercased, and preceded by `-` when the
/// character before it is a word character.
pub open spec fn hyphenate(s: Seq<char>) -> Seq<char>
    decreases s.len(),
{
    if s.len() == 0 {
        seq![]
    } else {
        hyphenate(s.drop_last()) + hyphen_piece(s, s.len() - 1)
    }
}

proof fn lemma_hyphen_piece_prefix(s: Seq<char>, i: int, n: int)
    requires
        0 <= i < n <= s.len(),
    ensures
        hyphen_piece(s.take(n), i) == hyphen_piece(s, i),
{
}

fn hyphenate_exec(s: &[char]) -> (r: Vec<char>)
    ensures
        r@ == hyphenate(s@),
{
    let mut out: Vec<char> = Vec::new();
    let mut prev_is_word = false;
    let mut i: usize = 0;
    while i < s.len()
        invariant
            i <= s.len(),
            out@ == hyphenate(s@.take(i as int)),
            prev_is_word == (i > 0 && is_word(s@[i - 1])),
        decreases s.len() - i,
    {
        let c = s[i];
        let ghost before = out@;
        if is_upper_exec(c) {
            if prev_is_word {
                out.push('-');
            }
            out.push(lower_exec(c));
        } else {
            out.push(c);
        }
        prev_is_word = is_alnum_exec(c) || c == '_';
        proof {
            let t = s@.take(i + 1);
            assert(t.drop_last() == s@.take(i as int));
            lemma_hyphen_piece_prefix(s@, i as int, i + 1);
            assert(out@ == before + hyphen_piece(s@, i as int));
        }
        i += 1;
    }
    assert(s@.take(s@.len() as int) == s@);
    out
}

/// The first character may not start a hyphenatable prop name.
pub open spec fn hyphenatable(rest: Seq<char>) -> bool {
    &&& rest.len() > 0
    &&& !(rest[0] == '@' || rest[0] == '#' || rest[0] == ':' || rest[0] == '.' || rest[0]
        == '[')
    &&& !starts_with(rest, "v-"@)
    &&& !starts_with(rest, "data-"@)
    &&& !starts_with(rest, "aria-"@)
}

/// `v-bind:foo` → `:foo` and `v-on:foo` → `@foo`, when the argument is not empty.
pub open spec fn shorthand(n: Seq<char>) -> Seq<char> {
    if starts_with(n, "v-bind:"@) && n.len() > "v-bind:"@.len() {
        seq![':'] + n.skip("v-bind:"@.len() as int)
    } else if starts_with(n, "v-on:"@) && n.len() > "v-on:"@.len() {
        seq!['@'] + n.skip("v-on:"@.len() as int)
    } else {
        n
    }
}

/// Kebab-cases the prop name of `n` (after an optional `:`), keeping modifiers.
pub open spec fn hyphenate_prop(n: Seq<char>) -> Seq<char> {
    let bound = n.len() > 0 && n[0] == ':';
    let rest = if bound {
        n.skip(1)
    } else {
        n
    };
    if hyphenatable(rest) {
        let arg = strip_modifiers(rest);
        (if bound {
            seq![':']
        } else {
            seq![]
        }) + hyphenate(arg) + rest.skip(arg.len() as int)
    } else {
        n
    }
}

/// The attribute name a profile's `normalize` options produce.
pub open spec fn spec_normalize_name(n: Seq<char>, component: bool, options: Normalize) -> Seq<
    char,
> {
    let n1 = if options.directive_shorthand {
        shorthand(n)
    } else {
        n
    };
    if options.hyphenate_component_props && component {
        hyphenate_prop(n1)
    } else {
        n1
    }
}

/// Writing `v-bind:` as `:` and `v-on:` as `@` does not change an
/// attribute's key: it is classified and clustered as before.
pub proof fn lemma_shorthand_keeps_key(n: Seq<char>)
    ensures
        spec_key_of(shorthand(n)) == spec_key_of(n),
{
    reveal_strlit("v-bind:");
    reveal_strlit("v-on:");
    if starts_with(n, "v-bind:"@) && n.len() > "v-bind:"@.len() {
        let m = shorthand(n);
        assert(m.skip(1) =~= n.skip(7));
        assert(m[0] == ':');
        if m.len() >= 7 {
            assert(m.subrange(0, 7)[0] == m[0]);
        }
        if m.len() >= 2 {
            assert(m.subrange(0, 2)[0] == m[0]);
        }
        assert(!starts_with(m, "v-bind:"@));
        assert(m.len() > 1 && m[0] == ':');
        assert(spec_key_of(m) == bound_key(m.skip(1)));
        assert(spec_key_of(n) == bound_key(n.skip(7)));
    } else if starts_with(n, "v-on:"@) && n.len() > "v-on:"@.len() {
        let m = shorthand(n);
        assert(n.subrange(0, 5)[2] == n[2]);
        assert(n.subrange(0, 5)[0] == n[0]);
        if n.len() >= 7 {
            assert(n.subrange(0, 7)[2] == n[2]);
        }
        assert(!starts_with(n, "v-bind:"@));
        assert(m.skip(1) =~= n.skip(5));
        assert(m[0] == '@');
        if m.len() >= 7 {
            assert(m.subrange(0, 7)[0] == m[0]);
        }
        if m.len() >= 5 {
            assert(m.subrange(0, 5)[0] == m[0]);
        }
        if m.len() >= 2 {
            assert(m.subrange(0, 2)[0] == m[0]);
        }
        assert(!starts_with(m, "v-bind:"@));
        assert(!starts_with(m, "v-on:"@));
        assert(spec_key_of(m) == directive_key("v-on:"@, m.skip(1)));
        assert(spec_key_of(n) == directive_key("v-on:"@, n.skip(5)));
    } else {
        assert(shorthand(n) == n);
    }
}

/// No ASCII uppercase letter in `s`.
pub open spec fn no_upper(s: Seq<char>) -> bool {
    forall|i: int| 0 <= i < s.len() ==> !is_upper(#[trigger] s[i])
}

proof fn lemma_lower_char(c: char)
    ensures
        !is_upper(lower(c)),
        !is_upper(c) ==> lower(c) == c,
        is_upper(c) ==> 'a' <= lower(c) <= 'z',
{
    if is_upper(c) {
        assert(65 <= c as u32 <= 90);
        assert('a' <= ((c as u32) + 32) as char <= 'z');
    }
}

proof fn lemma_hyphenate_no_upper(s: Seq<char>)
    ensures
        no_upper(hyphenate(s)),
    decreases s.len(),
{
    if s.len() > 0 {
        lemma_hyphenate_no_upper(s.drop_last());
        lemma_lower_char(s[s.len() - 1]);
        let h = hyphenate(s);
        let p = hyphenate(s.drop_last());
        assert forall|i: int| 0 <= i < h.len() implies !is_upper(#[trigger] h[i]) by {
            if i < p.len() {
                assert(h[i] == p[i]);
            }
        }
    }
}

proof fn lemma_hyphenate_fixed(t: Seq<char>)
    requires
        no_upper(t),
    ensures
        hyphenate(t) == t,
    decreases t.len(),
{
    if t.len() > 0 {
        lemma_hyphenate_fixed(t.drop_last());
        assert(!is_upper(t[t.len() - 1]));
        assert(t.drop_last().push(t[t.len() - 1]) =~= t);
    }
}

/// The bracket depth after `k` characters depends on those characters only.
proof fn lemma_depth_prefix(s: Seq<char>, t: Seq<char>, k: int)
    requires
        0 <= k <= s.len(),
        k <= t.len(),
        forall|i: int| 0 <= i < k ==> s[i] == t[i],
    ensures
        bracket_depth(s, k) == bracket_depth(t, k),
    decreases k,
{
    if k > 0 {
        lemma_depth_prefix(s, t, k - 1);
    }
}

/// `hyphenate` leaves the bracket depth at the end unchanged.
proof fn lemma_hyphenate_depth(s: Seq<char>)
    ensures
        bracket_depth(hyphenate(s), hyphenate(s).len() as int) == bracket_depth(s, s.len() as int),
    decreases s.len(),
{
    if s.len() > 0 {
        let s1 = s.drop_last();
        let c = s[s.len() - 1];
        let (h, h1) = (hyphenate(s), hyphenate(s1));
        lemma_hyphenate_depth(s1);
        lemma_lower_char(c);
        lemma_depth_prefix(h, h1, h1.len() as int);
        lemma_depth_prefix(s, s1, s1.len() as int);
        if is_upper(c) && s.len() - 1 > 0 && is_word(s[s.len() - 2]) {
            assert(h[h1.len() as int] == '-');
            assert(bracket_depth(h, h1.len() + 1int) == bracket_depth(h, h1.len() as int));
        }
    }
}

/// A `.` of `hyphenate(s)` after its first character is inside brackets
/// when every such `.` of `s` is.
proof fn lemma_hyphenate_dots(s: Seq<char>)
    requires
        forall|j: int| 0 < j < s.len() && s[j] == '.' ==> bracket_depth(s, j) > 0,
    ensures
        forall|i: int|
            0 < i < hyphenate(s).len() && hyphenate(s)[i] == '.' ==> bracket_depth(hyphenate(s), i) > 0,
    decreases s.len(),
{
    if s.len() > 0 {
        let s1 = s.drop_last();
        let c = s[s.len() - 1];
        let (h, h1) = (hyphenate(s), hyphenate(s1));
        assert forall|j: int| 0 < j < s1.len() && s1[j] == '.' implies bracket_depth(s1, j) > 0 by {
            lemma_depth_prefix(s, s1, j);
        }
        lemma_hyphenate_dots(s1);
        lemma_hyphenate_depth(s1);
        lemma_lower_char(c);
        assert forall|i: int| 0 < i < h.len() && h[i] == '.' implies bracket_depth(h, i) > 0 by {
            lemma_depth_prefix(h, h1, if i <= h1.len() { i } else { h1.len() as int });
            if i < h1.len() {
                assert(h[i] == h1[i]);
            } else {
                if i > h1.len() || (is_upper(c) && s.len() - 1 > 0 && is_word(s[s.len() - 2])) {
                    assert(h[i] != '.');
                } else {
                    assert(c == '.');
                    lemma_depth_prefix(s, s1, s1.len() as int);
                    assert(s.len() - 1 > 0) by {
                        if s.len() == 1 {
                            assert(h1.len() == 0);
                        }
                    }
                }
            }
        }
    }
}

proof fn lemma_modifier_cut(s: Seq<char>, i: int)
    requires
        0 <= i <= s.len(),
    ensures
        i <= modifier_cut(s, i) <= s.len(),
        forall|j: int| i <= j < modifier_cut(s, i) ==> !is_modifier_dot(s, j),
        modifier_cut(s, i) < s.len() ==> is_modifier_dot(s, modifier_cut(s, i)),
    decreases s.len() - i,
{
    if i < s.len() && !is_modifier_dot(s, i) {
        lemma_modifier_cut(s, i + 1);
    }
}

/// The first modifier dot of `h + tail` from `i` on is at `h.len()` when `h`
/// has none after its first character and `tail` starts with one.
proof fn lemma_cut_after(h: Seq<char>, tail: Seq<char>, i: int)
    requires
        0 <= i <= h.len(),
        forall|k: int| 0 < k < h.len() && h[k] == '.' ==> bracket_depth(h, k) > 0,
        tail.len() > 0 ==> h.len() > 0 && tail[0] == '.' && bracket_depth(h, h.len() as int) == 0,
    ensures
        modifier_cut(h + tail, i) == h.len(),
    decreases h.len() - i,
{
    let t = h + tail;
    if i < h.len() {
        lemma_depth_prefix(t, h, i);
        assert(t[i] == h[i]);
        assert(!is_modifier_dot(t, i));
        lemma_cut_after(h, tail, i + 1);
    } else if tail.len() > 0 {
        lemma_depth_prefix(t, h, i);
        assert(t[i] == tail[0]);
        assert(is_modifier_dot(t, i));
    }
}

/// Kebab-casing a prop name that is already kebab-cased changes nothing.
pub proof fn lemma_hyphenate_prop_idempotent(y: Seq<char>)
    ensures
        hyphenate_prop(hyphenate_prop(y)) == hyphenate_prop(y),
{
    let bound = y.len() > 0 && y[0] == ':';
    let rest = if bound {
        y.skip(1)
    } else {
        y
    };
    if hyphenatable(rest) {
        lemma_modifier_cut(rest, 0);
        let c = modifier_cut(rest, 0);
        let arg = strip_modifiers(rest);
        let tail = rest.skip(c);
        let h = hyphenate(arg);
        let pre = if bound {
            seq![':']
        } else {
            seq![]
        };
        let z = hyphenate_prop(y);
        assert(z == pre + h + tail);
        assert(c > 0);
        assert(arg.len() == c);
        assert forall|j: int| 0 < j < arg.len() && arg[j] == '.' implies bracket_depth(arg, j) > 0 by {
            lemma_depth_prefix(arg, rest, j);
            assert(!is_modifier_dot(rest, j));
        }
        lemma_hyphenate_dots(arg);
        lemma_hyphenate_depth(arg);
        lemma_hyphenate_no_upper(arg);
        lemma_hyphenate_fixed(h);
        lemma_lower_char(rest[0]);
        assert(h.len() > 0 && h[0] == lower(rest[0])) by {
            reveal_with_fuel(hyphenate, 2);
            assert(arg.len() >= 1);
            lemma_first_piece(arg);
        }
        let rest2 = h + tail;
        assert(z.len() > 0 && (z[0] == ':') == bound) by {
            if !bound {
                assert(z[0] == h[0]);
            }
        }
        assert((if bound { z.skip(1) } else { z }) =~= rest2);
        if hyphenatable(rest2) {
            if tail.len() > 0 {
                lemma_depth_prefix(arg, rest, c);
                assert(tail[0] == rest[c]);
            }
            lemma_cut_after(h, tail, 0);
            assert(strip_modifiers(rest2) =~= h);
            assert(rest2.skip(h.len() as int) =~= tail);
        }
    }
}

/// The first character `hyphenate` writes: the first character, lowercased.
proof fn lemma_first_piece(s: Seq<char>)
    requires
        s.len() > 0,
    ensures
        hyphenate(s).len() > 0,
        hyphenate(s)[0] == lower(s[0]),
    decreases s.len(),
{
    lemma_lower_char(s[0]);
    if s.len() > 1 {
        lemma_first_piece(s.drop_last());
        assert(s.drop_last()[0] == s[0]);
    } else {
        assert(s.drop_last().len() == 0);
        assert(hyphenate(s.drop_last()) == Seq::<char>::empty());
    }
}

/// Normalizing a normalized name changes nothing, except where the first
/// pass turned a component prop (such as `vBind:x`) into a long-form
/// directive (`v-bind:x`) that the shorthand then shortens.
pub proof fn lemma_normalize_idempotent(n: Seq<char>, component: bool, options: Normalize)
    requires
        options.directive_shorthand ==> shorthand(spec_normalize_name(n, component, options))
            == spec_normalize_name(n, component, options),
    ensures
        spec_normalize_name(spec_normalize_name(n, component, options), component, options)
            == spec_normalize_name(n, component, options),
{
    let m = spec_normalize_name(n, component, options);
    if options.hyphenate_component_props && component {
        let x = if options.directive_shorthand {
            shorthand(n)
        } else {
            n
        };
        lemma_hyphenate_prop_idempotent(x);
    }
}

proof fn lemma_cut_without_dots(s: Seq<char>, i: int)
    requires
        0 <= i <= s.len(),
        forall|k: int| 0 <= k < s.len() ==> s[k] != '.',
    ensures
        modifier_cut(s, i) == s.len(),
    decreases s.len() - i,
{
    if i < s.len() {
        lemma_cut_without_dots(s, i + 1);
    }
}

/// The static and bound forms of an attribute share one key, so they
/// cluster: for a plain name `x` (non-empty, without `.`, and starting with
/// none of `:`, `.`, `@`, `#`, `v-`), `x`, `:x` and `v-bind:x` all have the
/// key `x` lowercased, the last two marked bound.
pub proof fn lemma_bound_forms_share_key(x: Seq<char>)
    requires
        x.len() > 0,
        forall|k: int| 0 <= k < x.len() ==> x[k] != '.',
        x[0] != ':' && x[0] != '.' && x[0] != '@' && x[0] != '#',
        !starts_with(x, "v-"@),
    ensures
        spec_key_of(x) == (KeyView { name: lower_seq(x), bound: false, spread: false }),
        spec_key_of(seq![':'] + x) == (KeyView { name: lower_seq(x), bound: true, spread: false }),
        spec_key_of("v-bind:"@ + x) == (KeyView { name: lower_seq(x), bound: true, spread: false }),
{
    reveal_strlit("v-bind:");
    reveal_strlit("v-on:");
    reveal_strlit("v-slot:");
    reveal_strlit("v-");
    lemma_cut_without_dots(x, 0);
    assert(strip_modifiers(x) =~= x);
    // `x` starts with none of the directive prefixes: they all begin with `v-`.
    assert forall|m: int| 2 <= m <= x.len() && x.subrange(0, m)[0] == 'v' implies x.subrange(0, m)[1]
        != '-' by {
        if x.subrange(0, m)[1] == '-' {
            assert(x.subrange(0, 2) =~= "v-"@);
        }
    }
    if x.len() >= 7 {
        assert(x.subrange(0, 7)[0] == x[0] && x.subrange(0, 7)[1] == x[1]);
    }
    if x.len() >= 5 {
        assert(x.subrange(0, 5)[0] == x[0] && x.subrange(0, 5)[1] == x[1]);
    }
    assert(!starts_with(x, "v-bind:"@));
    assert(!starts_with(x, "v-on:"@));
    assert(!starts_with(x, "v-slot:"@));
    let b = seq![':'] + x;
    assert(b[0] == ':');
    if b.len() >= 7 {
        assert(b.subrange(0, 7)[0] == b[0]);
    }
    assert(!starts_with(b, "v-bind:"@));
    assert(b.skip(1) =~= x);
    let l = "v-bind:"@ + x;
    assert(l.subrange(0, 7) =~= "v-bind:"@);
    assert(l.skip(7) =~= x);
}

/// `hyphenate` works character by character, as Vue's `/\B([A-Z])/g`: an
/// ASCII uppercase letter is lowercased, with a `-` before it when the
/// character before it is an ASCII letter of either case, a digit or `_`;
/// every other character is copied.
pub proof fn lemma_hyphenate_char(s: Seq<char>, i: int)
    requires
        0 <= i < s.len(),
    ensures
        hyphenate(s.take(i + 1)) == hyphenate(s.take(i)) + if 'A' <= s[i] <= 'Z' {
            if i > 0 && (('a' <= s[i - 1] <= 'z') || ('A' <= s[i - 1] <= 'Z') || ('0' <= s[i - 1]
                <= '9') || s[i - 1] == '_') {
                seq!['-', lower(s[i])]
            } else {
                seq![lower(s[i])]
            }
        } else {
            seq![s[i]]
        },
{
    let t = s.take(i + 1);
    assert(t.drop_last() =~= s.take(i));
    assert(t[i] == s[i]);
    if i > 0 {
        assert(t[i - 1] == s[i - 1]);
    }
}

fn shorthand_exec(n: &[char]) -> (r: Vec<char>)
    ensures
        r@ == shorthand(n@),
{
    let v_bind = to_chars("v-bind:");
    let v_on = to_chars("v-on:");
    if matches_at_exec(n, 0, v_bind.as_slice()) && n.len() > v_bind.len() {
        let mut r = vec![':'];
        push_range(&mut r, n, v_bind.len(), n.len());
        return r;
    }
    if matches_at_exec(n, 0, v_on.as_slice()) && n.len() > v_on.len() {
        let mut r = vec!['@'];
        push_range(&mut r, n, v_on.len(), n.len());
        return r;
    }
    slice_vec(n, 0, n.len())
}

fn hyphenatable_exec(rest: &[char]) -> (b: bool)
    ensures
        b == hyphenatable(rest@),
{
    rest.len() > 0 && !(rest[0] == '@' || rest[0] == '#' || rest[0] == ':' || rest[0] == '.'
        || rest[0] == '[') && !at_str(rest, 0, "v-") && !at_str(rest, 0, "data-") && !at_str(
        rest,
        0,
        "aria-",
    )
}

fn hyphenate_prop_exec(n: &[char]) -> (r: Vec<char>)
    ensures
        r@ == hyphenate_prop(n@),
{
    let bound = n.len() > 0 && n[0] == ':';
    let rest = if bound {
        slice_vec(n, 1, n.len())
    } else {
        slice_vec(n, 0, n.len())
    };
    assert(n@.subrange(0, n@.len() as int) == n@);
    if hyphenatable_exec(rest.as_slice()) {
        let cut = modifier_cut_exec(rest.as_slice());
        let arg = slice_vec(rest.as_slice(), 0, cut);
        let mut out: Vec<char> = if bound {
            vec![':']
        } else {
            Vec::new()
        };
        let h = hyphenate_exec(arg.as_slice());
        push_all(&mut out, h.as_slice());
        push_range(&mut out, rest.as_slice(), cut, rest.len());
        out
    } else {
        slice_vec(n, 0, n.len())
    }
}

/// Applies the profile's name rewrites and returns the new attribute name.
pub fn normalize_name_chars(n: &[char], component: bool, options: &Normalize) -> (r: Vec<char>)
    ensures
        r@ == spec_normalize_name(n@, component, *options),
{
    let n1 = if options.directive_shorthand {
        shorthand_exec(n)
    } else {
        slice_vec(n, 0, n.len())
    };
    assert(n@.subrange(0, n@.len() as int) == n@);
    if options.hyphenate_component_props && component {
        hyphenate_prop_exec(n1.as_slice())
    } else {
        n1
    }
}

/// Applies the profile's name rewrites and returns the new attribute name.
pub fn normalize_name(name: &str, component: bool, options: &Normalize) -> (r: String)
    ensures
        r@ == spec_normalize_name(name@, component, *options),
{
    let n = to_chars(name);
    let r = normalize_name_chars(n.as_slice(), component, options);
    chars_to_string(r.as_slice())
}

/// SVG/MathML elements whose names look like components but are native.
pub open spec fn is_native_lookalike(t: Seq<char>) -> bool {
    ||| t == "altGlyph"@
    ||| t == "altGlyphDef"@
    ||| t == "altGlyphItem"@
    ||| t == "animateColor"@
    ||| t == "animateMotion"@
    ||| t == "animateTransform"@
    ||| t == "annotation-xml"@
    ||| t == "clipPath"@
    ||| t == "color-profile"@
    ||| t == "feBlend"@
    ||| t == "feColorMatrix"@
    ||| t == "feComponentTransfer"@
    ||| t == "feComposite"@
    ||| t == "feConvolveMatrix"@
    ||| t == "feDiffuseLighting"@
    ||| t == "feDisplacementMap"@
    ||| t == "feDistantLight"@
    ||| t == "feDropShadow"@
    ||| t == "feFlood"@
    ||| t == "feFuncA"@
    ||| t == "feFuncB"@
    ||| t == "feFuncG"@
    ||| t == "feFuncR"@
    ||| t == "feGaussianBlur"@
    ||| t == "feImage"@
    ||| t == "feMerge"@
    ||| t == "feMergeNode"@
    ||| t == "feMorphology"@
    ||| t == "feOffset"@
    ||| t == "fePointLight"@
    ||| t == "feSpecularLighting"@
    ||| t == "feSpotLight"@
    ||| t == "feTile"@
    ||| t == "feTurbulence"@
    ||| t == "font-face"@
    ||| t == "font-face-format"@
    ||| t == "font-face-name"@
    ||| t == "font-face-src"@
    ||| t == "font-face-uri"@
    ||| t == "foreignObject"@
    ||| t == "glyphRef"@
    ||| t == "linearGradient"@
    ||| t == "missing-glyph"@
    ||| t == "radialGradient"@
    ||| t == "textPath"@
}

fn is_native_lookalike_exec(t: &[char]) -> (b: bool)
    ensures
        b == is_native_lookalike(t@),
{
    eq_str(t, "altGlyph") || eq_str(t, "altGlyphDef") || eq_str(t, "altGlyphItem") || eq_str(
        t,
        "animateColor",
    ) || eq_str(t, "animateMotion") || eq_str(t, "animateTransform") || eq_str(
        t,
        "annotation-xml",
    ) || eq_str(t, "clipPath") || eq_str(t, "color-profile") || eq_str(t, "feBlend") || eq_str(
        t,
        "feColorMatrix",
    ) || eq_str(t, "feComponentTransfer") || eq_str(t, "feComposite") || eq_str(
        t,
        "feConvolveMatrix",
    ) || eq_str(t, "feDiffuseLighting") || eq_str(t, "feDisplacementMap") || eq_str(
        t,
        "feDistantLight",
    ) || eq_str(t, "feDropShadow") || eq_str(t, "feFlood") || eq_str(t, "feFuncA") || eq_str(
        t,
        "feFuncB",
    ) || eq_str(t, "feFuncG") || eq_str(t, "feFuncR") || eq_str(t, "feGaussianBlur") || eq_str(
        t,
        "feImage",
    ) || eq_str(t, "feMerge") || eq_str(t, "feMergeNode") || eq_str(t, "feMorphology")
        || eq_str(t, "feOffset") || eq_str(t, "fePointLight") || eq_str(t, "feSpecularLighting")
        || eq_str(t, "feSpotLight") || eq_str(t, "feTile") || eq_str(t, "feTurbulence")
        || eq_str(t, "font-face") || eq_str(t, "font-face-format") || eq_str(
        t,
        "font-face-name",
    ) || eq_str(t, "font-face-src") || eq_str(t, "font-face-uri") || eq_str(t, "foreignObject")
        || eq_str(t, "glyphRef") || eq_str(t, "linearGradient") || eq_str(t, "missing-glyph")
        || eq_str(t, "radialGradient") || eq_str(t, "textPath")
}

/// Whether a tag name refers to a (Vue or custom-element) component: it holds
/// a `-` or an uppercase ASCII letter, and is not a native SVG/MathML element.
pub open spec fn spec_is_component(t: Seq<char>) -> bool {
    (exists|i: int| 0 <= i < t.len() && (t[i] == '-' || is_upper(#[trigger] t[i])))
        && !is_native_lookalike(t)
}

pub fn is_component_chars(t: &[char]) -> (b: bool)
    ensures
        b == spec_is_component(t@),
{
    let mut found = false;
    let mut i: usize = 0;
    while i < t.len()
        invariant
            i <= t.len(),
            found == (exists|j: int| 0 <= j < i && (t@[j] == '-' || is_upper(#[trigger] t@[j]))),
        decreases t.len() - i,
    {
        if t[i] == '-' || is_upper_exec(t[i]) {
            found = true;
        }
        i += 1;
    }
    found && !is_native_lookalike_exec(t)
}

/// Whether a tag name refers to a (Vue or custom-element) component.
pub fn is_component(tag: &str) -> (b: bool)
    ensures
        b == spec_is_component(tag@),
{
    let t = to_chars(tag);
    is_component_chars(t.as_slice())
}

} // verus!
