//! The interpolation engine: `{{ name }}` placeholders in text are replaced
//! by the values of a variable map.
//!
//! A placeholder is `{{`, optional whitespace, one or more word characters
//! (letters, digits, underscore), optional whitespace, and `}}`.  A
//! placeholder whose name the map knows is replaced by the value, verbatim;
//! one it does not know is left exactly as written, its whitespace included.

use vstd::prelude::*;

use crate::error::Error;
use crate::fstree::Fs;
use crate::fstree::FsEntry;
use crate::fstree::FsItem;
use crate::fstree::Item;
use crate::fstree::clone_path;
use crate::fstree::contains_string;
use crate::fstree::is_dir;
use crate::fstree::item_view;
use crate::fstree::join_path;
use crate::fstree::lemma_entries_map_contains;
use crate::fstree::lemma_entries_map_update;
use crate::fstree::lemma_entries_map_value;
use crate::fstree::path_display;
use crate::fstree::path_starts_with;
use crate::fstree::path_view;
use crate::fstree::strictly_under;

verus! {

/// The whitespace accepted inside a placeholder.
pub open spec fn is_space_char(c: char) -> bool {
    c == ' ' || c == '\t' || c == '\n' || c == '\r' || c == '\u{b}' || c == '\u{c}'
}

/// The characters a placeholder name is made of: ASCII letters, digits and
/// the underscore.
pub open spec fn is_word_char(c: char) -> bool {
    ||| ('a' as u32) <= (c as u32) && (c as u32) <= ('z' as u32)
    ||| ('A' as u32) <= (c as u32) && (c as u32) <= ('Z' as u32)
    ||| ('0' as u32) <= (c as u32) && (c as u32) <= ('9' as u32)
    ||| c == '_'
}

/// The first position at or after `i` that does not hold whitespace.
pub open spec fn skip_spaces(s: Seq<char>, i: int) -> int
    decreases s.len() - i,
    when 0 <= i <= s.len()
{
    if i < s.len() && is_space_char(s[i]) {
        skip_spaces(s, i + 1)
    } else {
        i
    }
}

/// The first position at or after `i` that does not hold a word character.
pub open spec fn skip_word(s: Seq<char>, i: int) -> int
    decreases s.len() - i,
    when 0 <= i <= s.len()
{
    if i < s.len() && is_word_char(s[i]) {
        skip_word(s, i + 1)
    } else {
        i
    }
}

/// Where a whitespace run starting at `i` ends: everything before the end
/// is whitespace, and the end holds none (or is the end of the text).
pub proof fn lemma_skip_spaces_range(s: Seq<char>, i: int)
    requires
        0 <= i <= s.len(),
    ensures
        i <= skip_spaces(s, i) <= s.len(),
        forall|t: int| i <= t < skip_spaces(s, i) ==> is_space_char(#[trigger] s[t]),
        skip_spaces(s, i) < s.len() ==> !is_space_char(s[skip_spaces(s, i)]),
    decreases s.len() - i,
{
    if i < s.len() && is_space_char(s[i]) {
        lemma_skip_spaces_range(s, i + 1);
    }
}

/// Where a word-character run starting at `i` ends.
pub proof fn lemma_skip_word_range(s: Seq<char>, i: int)
    requires
        0 <= i <= s.len(),
    ensures
        i <= skip_word(s, i) <= s.len(),
        forall|t: int| i <= t < skip_word(s, i) ==> is_word_char(#[trigger] s[t]),
        skip_word(s, i) < s.len() ==> !is_word_char(s[skip_word(s, i)]),
    decreases s.len() - i,
{
    if i < s.len() && is_word_char(s[i]) {
        lemma_skip_word_range(s, i + 1);
    }
}

/// The whitespace run ends exactly at the first position that is not
/// whitespace.
pub proof fn lemma_skip_spaces_exact(s: Seq<char>, i: int, j: int)
    requires
        0 <= i <= j <= s.len(),
        forall|t: int| i <= t < j ==> is_space_char(#[trigger] s[t]),
        j == s.len() || !is_space_char(s[j]),
    ensures
        skip_spaces(s, i) == j,
    decreases j - i,
{
    if i < j {
        lemma_skip_spaces_exact(s, i + 1, j);
    }
}

/// The word run ends exactly at the first position that is not a word
/// character.
pub proof fn lemma_skip_word_exact(s: Seq<char>, i: int, j: int)
    requires
        0 <= i <= j <= s.len(),
        forall|t: int| i <= t < j ==> is_word_char(#[trigger] s[t]),
        j == s.len() || !is_word_char(s[j]),
    ensures
        skip_word(s, i) == j,
    decreases j - i,
{
    if i < j {
        lemma_skip_word_exact(s, i + 1, j);
    }
}

/// The placeholder starting exactly at position `i`, if any: its name and
/// the position just past its closing braces.
pub open spec fn match_at(s: Seq<char>, i: int) -> Option<(Seq<char>, int)>
    recommends
        0 <= i <= s.len(),
{
    if 0 <= i && i + 2 <= s.len() && s[i] == '{' && s[i + 1] == '{' {
        let a = skip_spaces(s, i + 2);
        let b = skip_word(s, a);
        if b > a {
            let c = skip_spaces(s, b);
            if c + 2 <= s.len() && s[c] == '}' && s[c + 1] == '}' {
                Some((s.subrange(a, b), c + 2))
            } else {
                None
            }
        } else {
            None
        }
    } else {
        None
    }
}

/// A matched placeholder spans at least five characters and stays within
/// the text.
pub proof fn lemma_match_at_bounds(s: Seq<char>, i: int)
    requires
        0 <= i <= s.len(),
        match_at(s, i) is Some,
    ensures
        i + 5 <= match_at(s, i)->Some_0.1 <= s.len(),
{
    lemma_skip_spaces_range(s, i + 2);
    lemma_skip_word_range(s, skip_spaces(s, i + 2));
    lemma_skip_spaces_range(s, skip_word(s, skip_spaces(s, i + 2)));
}

/// The text with every placeholder from position `i` on replaced: a known
/// name becomes its value, an unknown one stays as written, and everything
/// else is copied.
pub open spec fn interp_from(s: Seq<char>, i: int, m: Map<Seq<char>, Seq<char>>) -> Seq<char>
    decreases s.len() - i,
    when 0 <= i <= s.len()
    via interp_from_decreases
{
    if i >= s.len() {
        Seq::empty()
    } else {
        match match_at(s, i) {
            Some(ke) => (if m.dom().contains(ke.0) {
                m[ke.0]
            } else {
                s.subrange(i, ke.1)
            }) + interp_from(s, ke.1, m),
            None => seq![s[i]] + interp_from(s, i + 1, m),
        }
    }
}

#[via_fn]
proof fn interp_from_decreases(s: Seq<char>, i: int, m: Map<Seq<char>, Seq<char>>) {
    if 0 <= i < s.len() && match_at(s, i) is Some {
        lemma_match_at_bounds(s, i);
    }
}

/// The text with every placeholder replaced as the map directs.
pub open spec fn interp(s: Seq<char>, m: Map<Seq<char>, Seq<char>>) -> Seq<char> {
    interp_from(s, 0, m)
}

/// One name-value pair of the variable map.
pub struct VarEntry {
    pub key: String,
    pub value: String,
}

/// An ordered mapping from placeholder names to replacement text.
pub struct VarMap {
    pub entries: Vec<VarEntry>,
}

/// The abstract value of a list of variable entries, later entries
/// winning.
pub open spec fn vars_map(s: Seq<VarEntry>) -> Map<Seq<char>, Seq<char>>
    decreases s.len(),
{
    if s.len() == 0 {
        Map::empty()
    } else {
        vars_map(s.drop_last()).insert(s.last().key@, s.last().value@)
    }
}

/// A name occurs in the entry list exactly when the map contains it.
pub proof fn lemma_vars_map_contains(s: Seq<VarEntry>, k: Seq<char>)
    ensures
        vars_map(s).dom().contains(k) <==> exists|i: int| 0 <= i < s.len() && s[i].key@ == k,
    decreases s.len(),
{
    if s.len() > 0 {
        lemma_vars_map_contains(s.drop_last(), k);
        if vars_map(s).dom().contains(k) {
            if s.last().key@ == k {
                assert(s[s.len() - 1].key@ == k);
            } else {
                let i = choose|i: int| 0 <= i < s.drop_last().len() && s.drop_last()[i].key@ == k;
                assert(s[i].key@ == k);
            }
        }
        if exists|i: int| 0 <= i < s.len() && s[i].key@ == k {
            let i = choose|i: int| 0 <= i < s.len() && s[i].key@ == k;
            if i < s.len() - 1 {
                assert(s.drop_last()[i].key@ == k);
            }
        }
    }
}

/// With distinct names, the map sends each entry's name to its value.
pub proof fn lemma_vars_map_value(s: Seq<VarEntry>, i: int)
    requires
        forall|a: int, b: int| 0 <= a < b < s.len() ==> s[a].key@ != s[b].key@,
        0 <= i < s.len(),
    ensures
        vars_map(s).dom().contains(s[i].key@),
        vars_map(s)[s[i].key@] == s[i].value@,
    decreases s.len(),
{
    if i == s.len() - 1 {
    } else {
        assert(forall|a: int, b: int|
            0 <= a < b < s.drop_last().len() ==> s.drop_last()[a].key@ != s.drop_last()[b].key@);
        lemma_vars_map_value(s.drop_last(), i);
        assert(s[i].key@ != s[s.len() - 1].key@);
    }
}

impl View for VarMap {
    type V = Map<Seq<char>, Seq<char>>;

    open spec fn view(&self) -> Self::V {
        vars_map(self.entries@)
    }
}

impl VarMap {
    /// The map's invariant: distinct names.
    pub open spec fn wf(&self) -> bool {
        forall|a: int, b: int|
            0 <= a < b < self.entries@.len() ==> self.entries@[a].key@ != self.entries@[b].key@
    }

    /// An empty variable map.
    pub fn new() -> (r: VarMap)
        ensures
            r.wf(),
            r@ == Map::<Seq<char>, Seq<char>>::empty(),
    {
        VarMap { entries: Vec::new() }
    }

    /// Binds `key` to `value`, replacing an earlier binding of the same
    /// name.
    pub fn insert(&mut self, key: String, value: String)
        requires
            old(self).wf(),
        ensures
            final(self).wf(),
            final(self)@ == old(self)@.insert(key@, value@),
    {
        let ghost olds = self.entries@;
        let mut i: usize = 0;
        let n = self.entries.len();
        while i < n
            invariant
                i <= n,
                n == self.entries@.len(),
                self == old(self),
                old(self).wf(),
                olds == self.entries@,
                forall|a: int| 0 <= a < i ==> self.entries@[a].key@ != key@,
            decreases n - i,
        {
            if crate::fstree::string_eq(&self.entries[i].key, &key) {
                let e = VarEntry { key, value };
                proof {
                    assert forall|a: int, b: int| 0 <= a < b < olds.len() implies olds[a].key@
                        != olds[b].key@ by {
                        assert(old(self).entries@[a].key@ != old(self).entries@[b].key@);
                    }
                    lemma_vars_update(olds, i as int, e);
                }
                self.entries.set(i, e);
                return ;
            }
            i += 1;
        }
        proof {
            lemma_vars_map_contains(olds, key@);
        }
        self.entries.push(VarEntry { key, value });
        proof {
            assert(self.entries@.drop_last() =~= olds);
            assert forall|a: int, b: int| 0 <= a < b < self.entries@.len() implies
                self.entries@[a].key@ != self.entries@[b].key@ by {
                if b < self.entries@.len() - 1 {
                    assert(old(self).entries@[a].key@ != old(self).entries@[b].key@);
                }
            }
        }
    }
}

/// Replacing the entry at `i` by one with the same name updates that name
/// in the map.
proof fn lemma_vars_update(s: Seq<VarEntry>, i: int, e: VarEntry)
    requires
        forall|a: int, b: int| 0 <= a < b < s.len() ==> s[a].key@ != s[b].key@,
        0 <= i < s.len(),
        e.key@ == s[i].key@,
    ensures
        vars_map(s.update(i, e)) == vars_map(s).insert(e.key@, e.value@),
        forall|a: int, b: int|
            0 <= a < b < s.update(i, e).len() ==> s.update(i, e)[a].key@ != s.update(i, e)[b].key@,
{
    let s2 = s.update(i, e);
    let m2 = vars_map(s2);
    let mi = vars_map(s).insert(e.key@, e.value@);
    assert forall|k: Seq<char>| m2.dom().contains(k) implies mi.dom().contains(k) by {
        lemma_vars_map_contains(s2, k);
        let j = choose|j: int| 0 <= j < s2.len() && s2[j].key@ == k;
        lemma_vars_map_contains(s, k);
        assert(s[j].key@ == k || k == e.key@);
    }
    assert forall|k: Seq<char>| mi.dom().contains(k) implies m2.dom().contains(k) by {
        lemma_vars_map_contains(s, k);
        lemma_vars_map_contains(s2, k);
        if k == e.key@ {
            assert(s2[i].key@ == k);
        } else {
            let j = choose|j: int| 0 <= j < s.len() && s[j].key@ == k;
            assert(s2[j].key@ == k);
        }
    }
    assert forall|k: Seq<char>| m2.dom().contains(k) implies m2[k] == mi[k] by {
        lemma_vars_map_contains(s2, k);
        let j = choose|j: int| 0 <= j < s2.len() && s2[j].key@ == k;
        lemma_vars_map_value(s2, j);
        if k == e.key@ {
            assert(j == i);
        } else {
            assert(j != i);
            lemma_vars_map_value(s, j);
        }
    }
    assert(m2 =~= mi);
}

/// Whether `c` is placeholder whitespace.
fn is_space(c: char) -> (r: bool)
    ensures
        r == is_space_char(c),
{
    c == ' ' || c == '\t' || c == '\n' || c == '\r' || c == '\u{b}' || c == '\u{c}'
}

/// Whether `c` is a word character.
fn is_word(c: char) -> (r: bool)
    ensures
        r == is_word_char(c),
{
    let u = c as u32;
    (97 <= u && u <= 122) || (65 <= u && u <= 90) || (48 <= u && u <= 57) || c == '_'
}

/// Scans past the whitespace run starting at `i`.
fn scan_spaces(cs: &Vec<char>, i: usize) -> (r: usize)
    requires
        i <= cs@.len(),
    ensures
        r == skip_spaces(cs@, i as int),
        i <= r <= cs@.len(),
{
    let mut j = i;
    while j < cs.len() && is_space(cs[j])
        invariant
            i <= j <= cs@.len(),
            skip_spaces(cs@, i as int) == skip_spaces(cs@, j as int),
        decreases cs@.len() - j,
    {
        j += 1;
    }
    j
}

/// Scans past the word-character run starting at `i`.
fn scan_word(cs: &Vec<char>, i: usize) -> (r: usize)
    requires
        i <= cs@.len(),
    ensures
        r == skip_word(cs@, i as int),
        i <= r <= cs@.len(),
{
    let mut j = i;
    while j < cs.len() && is_word(cs[j])
        invariant
            i <= j <= cs@.len(),
            skip_word(cs@, i as int) == skip_word(cs@, j as int),
        decreases cs@.len() - j,
    {
        j += 1;
    }
    j
}

/// Finds the placeholder starting exactly at `i`, if any: the name's start
/// and end, and the position just past the closing braces.
fn match_placeholder(cs: &Vec<char>, i: usize) -> (r: Option<(usize, usize, usize)>)
    requires
        i < cs@.len(),
    ensures
        match r {
            Some(abe) => {
                &&& match_at(cs@, i as int) == Some(
                    (cs@.subrange(abe.0 as int, abe.1 as int), abe.2 as int),
                )
                &&& i < abe.0 as int <= abe.1 as int <= abe.2 as int <= cs@.len()
            },
            None => match_at(cs@, i as int) is None,
        },
{
    if !(cs.len() - i >= 2 && cs[i] == '{' && cs[i + 1] == '{') {
        return None;
    }
    let a = scan_spaces(cs, i + 2);
    let b = scan_word(cs, a);
    if b == a {
        return None;
    }
    let c = scan_spaces(cs, b);
    if cs.len() - c >= 2 && cs[c] == '}' && cs[c + 1] == '}' {
        Some((a, b, c + 2))
    } else {
        None
    }
}

/// Whether the string holds exactly the characters `cs[a..b]`.
fn string_eq_range(s: &String, cs: &Vec<char>, a: usize, b: usize) -> (r: bool)
    requires
        a <= b <= cs@.len(),
    ensures
        r == (s@ == cs@.subrange(a as int, b as int)),
{
    let n = s.as_str().unicode_len();
    if n != b - a {
        assert(cs@.subrange(a as int, b as int).len() == b - a);
        return false;
    }
    let mut j: usize = 0;
    while j < n
        invariant
            j <= n,
            n == s@.len(),
            n == b - a,
            a <= b <= cs@.len(),
            forall|t: int| 0 <= t < j ==> s@[t] == cs@[a + t],
        decreases n - j,
    {
        if s.as_str().get_char(j) != cs[a + j] {
            assert(s@[j as int] != cs@.subrange(a as int, b as int)[j as int]);
            return false;
        }
        j += 1;
    }
    assert(s@ =~= cs@.subrange(a as int, b as int));
    true
}

/// The value bound to the name `cs[a..b]`, if the map knows it.
fn lookup_range<'a>(vars: &'a VarMap, cs: &Vec<char>, a: usize, b: usize) -> (r: Option<
    &'a String,
>)
    requires
        vars.wf(),
        a <= b <= cs@.len(),
    ensures
        match r {
            Some(v) => vars@.dom().contains(cs@.subrange(a as int, b as int)) && vars@[cs@.subrange(
                a as int,
                b as int,
            )] == v@,
            None => !vars@.dom().contains(cs@.subrange(a as int, b as int)),
        },
{
    let ghost k = cs@.subrange(a as int, b as int);
    let mut i: usize = 0;
    let n = vars.entries.len();
    while i < n
        invariant
            i <= n,
            n == vars.entries@.len(),
            vars.wf(),
            a <= b <= cs@.len(),
            k == cs@.subrange(a as int, b as int),
            forall|t: int| 0 <= t < i ==> vars.entries@[t].key@ != k,
        decreases n - i,
    {
        if string_eq_range(&vars.entries[i].key, cs, a, b) {
            proof {
                lemma_vars_map_value(vars.entries@, i as int);
            }
            return Some(&vars.entries[i].value);
        }
        i += 1;
    }
    proof {
        lemma_vars_map_contains(vars.entries@, k);
    }
    None
}

/// Appends the characters of `s` to `out`.
fn push_str_chars(out: &mut Vec<char>, s: &String)
    ensures
        final(out)@ == old(out)@ + s@,
{
    let n = s.as_str().unicode_len();
    let mut j: usize = 0;
    while j < n
        invariant
            j <= n,
            n == s@.len(),
            out@.len() == old(out)@.len() + j,
            forall|t: int| 0 <= t < old(out)@.len() ==> out@[t] == old(out)@[t],
            forall|t: int| 0 <= t < j ==> out@[old(out)@.len() + t] == s@[t],
        decreases n - j,
    {
        out.push(s.as_str().get_char(j));
        j += 1;
    }
    assert(out@ =~= old(out)@ + s@);
}

/// The characters of a string, in order.
pub fn str_to_chars(s: &str) -> (r: Vec<char>)
    ensures
        r@ == s@,
{
    let n = s.unicode_len();
    let mut r: Vec<char> = Vec::new();
    let mut j: usize = 0;
    while j < n
        invariant
            j <= n,
            n == s@.len(),
            r@.len() == j,
            forall|t: int| 0 <= t < j ==> r@[t] == s@[t],
        decreases n - j,
    {
        r.push(s.get_char(j));
        j += 1;
    }
    assert(r@ =~= s@);
    r
}

/// Relies on `Iterator::collect` for `String`: collecting characters
/// yields the string of exactly those characters, in order.
#[verifier::external_body]
fn chars_to_string(cs: &Vec<char>) -> (r: String)
    ensures
        r@ == cs@,
{
    cs.iter().collect()
}

/// Replaces every placeholder of `cs` as the variable map directs.
fn interpolate_chars(cs: &Vec<char>, vars: &VarMap) -> (out: Vec<char>)
    requires
        vars.wf(),
    ensures
        out@ == interp(cs@, vars@),
{
    let mut out: Vec<char> = Vec::new();
    let mut i: usize = 0;
    while i < cs.len()
        invariant
            i <= cs@.len(),
            vars.wf(),
            interp(cs@, vars@) == out@ + interp_from(cs@, i as int, vars@),
        decreases cs@.len() - i,
    {
        let ghost out0 = out@;
        match match_placeholder(cs, i) {
            Some((a, b, e)) => {
                let ghost key = cs@.subrange(a as int, b as int);
                match lookup_range(vars, cs, a, b) {
                    Some(v) => {
                        push_str_chars(&mut out, v);
                        proof {
                            assert(interp_from(cs@, i as int, vars@) == vars@[key] + interp_from(
                                cs@,
                                e as int,
                                vars@,
                            ));
                            assert((out0 + vars@[key]) + interp_from(cs@, e as int, vars@) =~= out0
                                + (vars@[key] + interp_from(cs@, e as int, vars@)));
                        }
                    },
                    None => {
                        let mut j = i;
                        while j < e
                            invariant
                                i <= j <= e,
                                e <= cs@.len(),
                                out@.len() == out0.len() + j - i,
                                forall|t: int| 0 <= t < out0.len() ==> out@[t] == out0[t],
                                forall|t: int|
                                    out0.len() <= t < out@.len() ==> #[trigger] out@[t] == cs@[i
                                        + t - out0.len()],
                            decreases e - j,
                        {
                            out.push(cs[j]);
                            j += 1;
                        }
                        proof {
                            assert(out@ =~= out0 + cs@.subrange(i as int, e as int));
                            assert(interp_from(cs@, i as int, vars@) == cs@.subrange(
                                i as int,
                                e as int,
                            ) + interp_from(cs@, e as int, vars@));
                            assert((out0 + cs@.subrange(i as int, e as int)) + interp_from(
                                cs@,
                                e as int,
                                vars@,
                            ) =~= out0 + (cs@.subrange(i as int, e as int) + interp_from(
                                cs@,
                                e as int,
                                vars@,
                            )));
                        }
                    },
                }
                i = e;
            },
            None => {
                out.push(cs[i]);
                proof {
                    assert(interp_from(cs@, i as int, vars@) == seq![cs@[i as int]] + interp_from(
                        cs@,
                        i + 1,
                        vars@,
                    ));
                    assert((out0 + seq![cs@[i as int]]) + interp_from(cs@, i + 1, vars@) =~= out0
                        + (seq![cs@[i as int]] + interp_from(cs@, i + 1, vars@)));
                    assert(out@ =~= out0 + seq![cs@[i as int]]);
                }
                i += 1;
            },
        }
    }
    proof {
        assert(interp_from(cs@, cs@.len() as int, vars@) =~= Seq::<char>::empty());
        assert(out@ + Seq::<char>::empty() =~= out@);
    }
    out
}

/// Replaces every `{{ name }}` placeholder of `content` with the value the
/// variable map binds to `name`; unknown placeholders stay exactly as
/// written.
pub fn interpolate_content(content: &str, vars: &VarMap) -> (r: String)
    requires
        vars.wf(),
    ensures
        r@ == interp(content@, vars@),
{
    let cs = str_to_chars(content);
    let out = interpolate_chars(&cs, vars);
    chars_to_string(&out)
}

/// The placeholder names that occur in the text from position `i` on.
pub open spec fn placeholder_keys_from(s: Seq<char>, i: int) -> Set<Seq<char>>
    decreases s.len() - i,
    when 0 <= i <= s.len()
    via placeholder_keys_from_decreases
{
    if i >= s.len() {
        Set::empty()
    } else {
        match match_at(s, i) {
            Some(ke) => placeholder_keys_from(s, ke.1).insert(ke.0),
            None => placeholder_keys_from(s, i + 1),
        }
    }
}

#[via_fn]
proof fn placeholder_keys_from_decreases(s: Seq<char>, i: int) {
    if 0 <= i < s.len() && match_at(s, i) is Some {
        lemma_match_at_bounds(s, i);
    }
}

/// The placeholder names that occur in the text.
pub open spec fn placeholder_keys(s: Seq<char>) -> Set<Seq<char>> {
    placeholder_keys_from(s, 0)
}

proof fn lemma_interp_from_unknown(s: Seq<char>, i: int, m: Map<Seq<char>, Seq<char>>)
    requires
        0 <= i <= s.len(),
        forall|k: Seq<char>|
            placeholder_keys_from(s, i).contains(k) ==> !(#[trigger] m.dom().contains(k)),
    ensures
        interp_from(s, i, m) == s.skip(i),
    decreases s.len() - i,
{
    if i >= s.len() {
        assert(s.skip(i) =~= Seq::<char>::empty());
    } else {
        match match_at(s, i) {
            Some(ke) => {
                lemma_match_at_bounds(s, i);
                assert(placeholder_keys_from(s, i).contains(ke.0));
                lemma_interp_from_unknown(s, ke.1, m);
                assert(s.subrange(i, ke.1) + s.skip(ke.1) =~= s.skip(i));
            },
            None => {
                lemma_interp_from_unknown(s, i + 1, m);
                assert(seq![s[i]] + s.skip(i + 1) =~= s.skip(i));
            },
        }
    }
}

/// Interpolation on unknown names changes nothing: when the map knows none
/// of the text's placeholder names, the text comes back exactly as
/// written, whitespace included.
pub proof fn lemma_interp_unknown_keys(s: Seq<char>, m: Map<Seq<char>, Seq<char>>)
    requires
        forall|k: Seq<char>|
            placeholder_keys(s).contains(k) ==> !(#[trigger] m.dom().contains(k)),
    ensures
        interp(s, m) == s,
{
    lemma_interp_from_unknown(s, 0, m);
    assert(s.skip(0) =~= s);
}

/// A lone placeholder resolves to its value whatever whitespace padding
/// its braces carry: `{{name}}`, `{{ name }}` and all other paddings of a
/// known name give exactly the bound value.
pub proof fn lemma_placeholder_resolves(
    ws1: Seq<char>,
    ws2: Seq<char>,
    key: Seq<char>,
    m: Map<Seq<char>, Seq<char>>,
)
    requires
        forall|j: int| 0 <= j < ws1.len() ==> is_space_char(#[trigger] ws1[j]),
        forall|j: int| 0 <= j < ws2.len() ==> is_space_char(#[trigger] ws2[j]),
        key.len() >= 1,
        forall|j: int| 0 <= j < key.len() ==> is_word_char(#[trigger] key[j]),
        m.dom().contains(key),
    ensures
        interp(seq!['{', '{'] + ws1 + key + ws2 + seq!['}', '}'], m) == m[key],
{
    let s = seq!['{', '{'] + ws1 + key + ws2 + seq!['}', '}'];
    let n1 = 2 + ws1.len() as int;
    let n2 = n1 + key.len() as int;
    let n3 = n2 + ws2.len() as int;
    assert(s.len() == n3 + 2);
    assert(s[0] == '{');
    assert(s[1] == '{');
    assert forall|t: int| 2 <= t < n1 implies is_space_char(#[trigger] s[t]) by {
        assert(s[t] == ws1[t - 2]);
    }
    assert forall|t: int| n1 <= t < n2 implies is_word_char(#[trigger] s[t]) by {
        assert(s[t] == key[t - n1]);
    }
    assert forall|t: int| n2 <= t < n3 implies is_space_char(#[trigger] s[t]) by {
        assert(s[t] == ws2[t - n2]);
    }
    assert(s[n3] == '}');
    assert(s[n3 + 1] == '}');
    assert(!is_space_char(s[n1]) && !is_word_char(s[n2]) && !is_space_char(s[n3])) by {
        if n2 < n3 {
            assert(s[n2] == ws2[0]);
        } else {
            assert(s[n2] == '}');
        }
        assert(s[n1] == key[0]);
    }
    lemma_skip_spaces_exact(s, 2, n1);
    lemma_skip_word_exact(s, n1, n2);
    lemma_skip_spaces_exact(s, n2, n3);
    assert(s.subrange(n1, n2) =~= key);
    assert(match_at(s, 0) == Some((key, n3 + 2)));
    assert(interp_from(s, s.len() as int, m) == Seq::<char>::empty());
    assert(interp(s, m) == m[key] + Seq::<char>::empty());
    assert(m[key] + Seq::<char>::empty() =~= m[key]);
}

/// Whether the file at path `k` is visited when the walk starts at `root`
/// and skips entries named in `excl`: the path lies below the root and
/// passes through no excluded name.
pub open spec fn visited_file_path(
    k: Seq<Seq<char>>,
    root: Seq<Seq<char>>,
    excl: Seq<Seq<char>>,
) -> bool {
    strictly_under(k, root) && forall|j: int|
        root.len() <= j < k.len() ==> !excl.contains(#[trigger] k[j])
}

/// The content of a file item; directories have none.
pub open spec fn file_content(it: Item) -> Seq<char> {
    match it {
        Item::File(c) => c,
        Item::Dir => Seq::empty(),
    }
}

/// What one entry's content becomes under the walk: a visited file is
/// interpolated, everything else stays.
pub open spec fn replaced_item(
    it: Item,
    k: Seq<Seq<char>>,
    root: Seq<Seq<char>>,
    excl: Seq<Seq<char>>,
    vm: Map<Seq<char>, Seq<char>>,
) -> Item {
    if visited_file_path(k, root, excl) && it is File {
        Item::File(interp(file_content(it), vm))
    } else {
        it
    }
}

/// The map after interpolating every visited file under `root`.
pub open spec fn replace_all_spec(
    m: Map<Seq<Seq<char>>, Item>,
    root: Seq<Seq<char>>,
    excl: Seq<Seq<char>>,
    vm: Map<Seq<char>, Seq<char>>,
) -> Map<Seq<Seq<char>>, Item> {
    Map::new(
        |k: Seq<Seq<char>>| m.dom().contains(k),
        |k: Seq<Seq<char>>| replaced_item(m[k], k, root, excl, vm),
    )
}

/// The display paths of the visited files, in entry order.
pub open spec fn visited_display(
    s: Seq<FsEntry>,
    root: Seq<Seq<char>>,
    excl: Seq<Seq<char>>,
) -> Seq<Seq<char>>
    decreases s.len(),
{
    if s.len() == 0 {
        Seq::empty()
    } else {
        visited_display(s.drop_last(), root, excl) + (if visited_file_path(
            path_view(s.last().path@),
            root,
            excl,
        ) && s.last().item is File {
            seq![join_path(path_view(s.last().path@))]
        } else {
            Seq::empty()
        })
    }
}

/// Rewrites every file below `root`, interpolating its placeholders with
/// the variable map; entries (and, for directories, their whole subtrees)
/// whose name is listed in `exclude` are skipped.  Returns the display
/// paths of every visited file, in traversal order, whether or not its
/// text changed.  Fails when no directory sits at `root`.
pub fn replace_template_vars_all(
    fs: &mut Fs,
    root: &Vec<String>,
    exclude: &Vec<String>,
    vars: &VarMap,
) -> (r: Result<Vec<String>, Error>)
    requires
        old(fs).wf(),
        vars.wf(),
    ensures
        final(fs).wf(),
        r is Ok <==> (old(fs)@.dom().contains(path_view(root@)) && old(fs)@[path_view(root@)]
            is Dir),
        r matches Ok(files) ==> {
            &&& final(fs)@ == replace_all_spec(
                old(fs)@,
                path_view(root@),
                path_view(exclude@),
                vars@,
            )
            &&& files@.map_values(|s: String| s@) == visited_display(
                old(fs).entries@,
                path_view(root@),
                path_view(exclude@),
            )
            &&& final(fs).entries@.len() == old(fs).entries@.len()
            &&& forall|a: int|
                0 <= a < final(fs).entries@.len() ==> path_view(
                    #[trigger] final(fs).entries@[a].path@,
                ) == path_view(old(fs).entries@[a].path@)
        },
        r matches Err(e) ==> *final(fs) == *old(fs) && e is Io,
{
    let ghost rv = path_view(root@);
    let ghost ev = path_view(exclude@);
    let ghost vm = vars@;
    let ghost olds = old(fs).entries@;
    if !is_dir(fs, root) {
        return Err(Error::Io { path: clone_path(root) });
    }
    let n = fs.entries.len();
    let mut files: Vec<String> = Vec::new();
    let mut i: usize = 0;
    while i < n
        invariant
            i <= n,
            n == fs.entries@.len(),
            n == olds.len(),
            fs.wf(),
            vars.wf(),
            rv == path_view(root@),
            ev == path_view(exclude@),
            vm == vars@,
            olds == old(fs).entries@,
            forall|a: int| i <= a < n ==> fs.entries@[a] == olds[a],
            forall|a: int|
                0 <= a < n ==> path_view(#[trigger] fs.entries@[a].path@) == path_view(
                    olds[a].path@,
                ),
            forall|a: int|
                0 <= a < i ==> item_view(#[trigger] fs.entries@[a].item) == replaced_item(
                    item_view(olds[a].item),
                    path_view(olds[a].path@),
                    rv,
                    ev,
                    vm,
                ),
            files@.map_values(|s: String| s@) == visited_display(olds.take(i as int), rv, ev),
        decreases n - i,
    {
        let ghost fpre = files@;
        let e = &fs.entries[i];
        let ghost pe = path_view(e.path@);
        // Is the entry visited: below the root, through no excluded name?
        let visited: bool = if e.path.len() > root.len() && path_starts_with(&e.path, root) {
            let mut j: usize = root.len();
            let mut clean = true;
            while j < e.path.len()
                invariant
                    root@.len() <= j <= e.path@.len(),
                    ev == path_view(exclude@),
                    pe == path_view(e.path@),
                    clean == forall|t: int|
                        root@.len() <= t < j ==> !ev.contains(#[trigger] pe[t]),
                decreases e.path@.len() - j,
            {
                if contains_string(exclude, &e.path[j]) {
                    assert(ev.contains(pe[j as int]));
                    clean = false;
                }
                j += 1;
            }
            clean
        } else {
            false
        };
        assert(visited == visited_file_path(pe, rv, ev));
        // A visited file gets its text interpolated.
        let update: Option<(String, String)> = if visited {
            match &e.item {
                FsItem::File { content } => {
                    let newc = interpolate_content(content.as_str(), vars);
                    let disp = path_display(&e.path);
                    Some((newc, disp))
                },
                FsItem::Dir => None,
            }
        } else {
            None
        };
        let ghost snext = olds.take(i + 1);
        proof {
            assert(snext.drop_last() =~= olds.take(i as int));
            assert(snext.last() == olds[i as int]);
        }
        match update {
            Some((newc, disp)) => {
                let ghost dispv = disp@;
                let np = clone_path(&fs.entries[i].path);
                let ghost cur = fs.entries@;
                let e2 = FsEntry { path: np, item: FsItem::File { content: newc } };
                proof {
                    lemma_entries_map_update(cur, i as int, e2);
                }
                fs.entries.set(i, e2);
                files.push(disp);
                proof {
                    assert(files@.drop_last() =~= fpre);
                    assert(files@.map_values(|s: String| s@) =~= fpre.map_values(|s: String| s@)
                        + seq![dispv]);
                    assert(visited_display(snext, rv, ev) =~= visited_display(
                        olds.take(i as int),
                        rv,
                        ev,
                    ) + seq![join_path(pe)]);
                }
            },
            None => {
                proof {
                    assert(visited_display(snext, rv, ev) =~= visited_display(
                        olds.take(i as int),
                        rv,
                        ev,
                    ));
                }
            },
        }
        i += 1;
    }
    proof {
        assert(olds.take(n as int) =~= olds);
        // The final map is exactly the rewrite of the old one.
        let mfin = crate::fstree::entries_map(fs.entries@);
        let mold = crate::fstree::entries_map(olds);
        assert forall|k: Seq<Seq<char>>| #![auto] mfin.dom().contains(k) <==> mold.dom().contains(
            k,
        ) by {
            lemma_entries_map_contains(fs.entries@, k);
            lemma_entries_map_contains(olds, k);
            if mfin.dom().contains(k) {
                let a = choose|a: int|
                    0 <= a < fs.entries@.len() && path_view(fs.entries@[a].path@) == k;
                assert(path_view(olds[a].path@) == k);
            }
            if mold.dom().contains(k) {
                let a = choose|a: int| 0 <= a < olds.len() && path_view(olds[a].path@) == k;
                assert(path_view(fs.entries@[a].path@) == k);
            }
        }
        assert forall|k: Seq<Seq<char>>| #![auto] mfin.dom().contains(k) implies mfin[k]
            == replaced_item(mold[k], k, rv, ev, vm) by {
            lemma_entries_map_contains(fs.entries@, k);
            let a = choose|a: int| 0 <= a < fs.entries@.len() && path_view(fs.entries@[a].path@)
                == k;
            lemma_entries_map_value(fs.entries@, a);
            assert forall|x: int, y: int| 0 <= x < y < olds.len() implies path_view(olds[x].path@)
                != path_view(olds[y].path@) by {
                assert(path_view(fs.entries@[x].path@) != path_view(fs.entries@[y].path@));
            }
            lemma_entries_map_value(olds, a);
        }
        assert(mfin =~= replace_all_spec(mold, rv, ev, vm));
    }
    Ok(files)
}

} // verus!
