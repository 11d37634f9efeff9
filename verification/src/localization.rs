//! Localization: structured translation identifiers, a list of languages
//! with validated codes, and a translator that loads a flat YAML mapping
//! and substitutes `{name}` placeholders.

use vstd::prelude::*;

use crate::command::pairs_view;
use crate::registries::ID;
use crate::text::{
    chars_of, find_char, first_pos_of, has_char_in, push_chars, push_str_chars, str_eq,
    string_from_chars, subvec, lemma_first_pos_of,
};

verus! {

/// A structured translation key: namespace, category, and name.
#[derive(Clone, Debug, Hash, Eq, PartialEq)]
pub struct TranslationID {
    pub namespace: String,
    pub category: String,
    pub name: String,
}

/// The three parts of a translation identifier.
pub open spec fn tid_view(t: TranslationID) -> (Seq<char>, Seq<char>, Seq<char>) {
    (t.namespace@, t.category@, t.name@)
}

/// Whether `namespace:category.name` text parses: a first `:` exists and a
/// `.` follows it.
pub open spec fn tid_text_ok(s: Seq<char>) -> bool {
    has_char_in(s, ':') && has_char_in(s.skip(first_pos_of(s, ':') + 1), '.')
}

/// The identifier that `namespace:category.name` text denotes: split at
/// the first `:`, then at the first `.` after it.
pub open spec fn tid_of_text(s: Seq<char>) -> (Seq<char>, Seq<char>, Seq<char>) {
    let a = first_pos_of(s, ':');
    let tail = s.skip(a + 1);
    let d = first_pos_of(tail, '.');
    (s.take(a), tail.take(d), tail.skip(d + 1))
}

impl TranslationID {
    /// An identifier from its three parts.
    pub fn new(namespace: &str, category: &str, name: &str) -> (r: Self)
        ensures
            r.namespace@ == namespace@,
            r.category@ == category@,
            r.name@ == name@,
    {
        TranslationID {
            namespace: namespace.to_owned(),
            category: category.to_owned(),
            name: name.to_owned(),
        }
    }

    /// An identifier for a game-content entity: the entity's
    /// `namespace:name` text is split back at its first `:`, and the given
    /// category slots in between.
    pub fn from_id(id: &ID, c: &str) -> (r: Self)
        ensures
            ({
                let rendered = id.namespace@ + seq![':'] + id.name@;
                let a = first_pos_of(rendered, ':');
                &&& r.namespace@ == rendered.take(a)
                &&& r.category@ == c@
                &&& r.name@ == rendered.skip(a + 1)
            }),
    {
        let mut rendered: Vec<char> = Vec::new();
        push_str_chars(&mut rendered, id.namespace.as_str());
        rendered.push(':');
        push_str_chars(&mut rendered, id.name.as_str());
        proof {
            assert(rendered@ =~= id.namespace@ + seq![':'] + id.name@);
            lemma_first_pos_of(rendered@, ':');
            assert(has_char_in(rendered@, ':')) by {
                assert(rendered@[id.namespace@.len() as int] == ':');
            }
        }
        let a = match find_char(&rendered, ':') {
            Some(i) => i,
            None => 0,
        };
        let total = rendered.len();
        proof {
            assert(a < total);
        }
        let ns = subvec(&rendered, 0, a);
        let rest = subvec(&rendered, a + 1, total);
        proof {
            assert(ns@ =~= rendered@.take(a as int));
            assert(rest@ =~= rendered@.skip(a + 1));
        }
        TranslationID {
            namespace: string_from_chars(&ns),
            category: c.to_owned(),
            name: string_from_chars(&rest),
        }
    }

    /// Parses `namespace:category.name` text; text without a `:`, or
    /// without a `.` after it, does not parse.
    pub fn parse(value: &str) -> (r: Option<Self>)
        ensures
            tid_text_ok(value@) ==> (r matches Some(t) && tid_view(t) == tid_of_text(value@)),
            !tid_text_ok(value@) ==> r is None,
    {
        let chars = chars_of(value);
        proof {
            lemma_first_pos_of(chars@, ':');
        }
        let a = match find_char(&chars, ':') {
            Some(i) => i,
            None => {
                return None;
            },
        };
        let tail = subvec(&chars, a + 1, chars.len());
        proof {
            assert(tail@ =~= chars@.skip(a + 1));
            lemma_first_pos_of(tail@, '.');
        }
        let d = match find_char(&tail, '.') {
            Some(i) => i,
            None => {
                return None;
            },
        };
        let ns = subvec(&chars, 0, a);
        let cat = subvec(&tail, 0, d);
        let nm = subvec(&tail, d + 1, tail.len());
        proof {
            assert(ns@ =~= chars@.take(a as int));
            assert(cat@ =~= tail@.take(d as int));
            assert(nm@ =~= tail@.skip(d + 1));
        }
        Some(
            TranslationID {
                namespace: string_from_chars(&ns),
                category: string_from_chars(&cat),
                name: string_from_chars(&nm),
            },
        )
    }
}

/// A language: a display name and a code such as `en_US`.
#[derive(Clone, Debug)]
pub struct Language {
    pub name: String,
    pub code: String,
}

/// The known languages, in insertion order, each code at most once.
#[derive(Clone, Debug)]
pub struct LanguageList {
    pub languages: Vec<Language>,
}

/// The name and code of each language.
pub open spec fn langs_view(s: Seq<Language>) -> Seq<(Seq<char>, Seq<char>)> {
    Seq::new(s.len(), |i: int| (s[i].name@, s[i].code@))
}

/// Whether a language code is acceptable: two lowercase letters, an
/// underscore, two uppercase letters.
pub open spec fn valid_code(s: Seq<char>) -> bool {
    &&& s.len() == 5
    &&& 'a' <= s[0] && s[0] <= 'z'
    &&& 'a' <= s[1] && s[1] <= 'z'
    &&& s[2] == '_'
    &&& 'A' <= s[3] && s[3] <= 'Z'
    &&& 'A' <= s[4] && s[4] <= 'Z'
}

/// The index of the first language with the given code, if any.
pub open spec fn lang_index(ls: Seq<(Seq<char>, Seq<char>)>, code: Seq<char>) -> Option<int>
    decreases ls.len(),
{
    if ls.len() == 0 {
        None
    } else if ls[0].1 == code {
        Some(0)
    } else {
        match lang_index(ls.drop_first(), code) {
            Some(i) => Some(i + 1),
            None => None,
        }
    }
}

pub proof fn lemma_lang_index(ls: Seq<(Seq<char>, Seq<char>)>, code: Seq<char>)
    ensures
        match lang_index(ls, code) {
            Some(i) => 0 <= i < ls.len() && ls[i].1 == code && forall|j: int|
                0 <= j < i ==> ls[j].1 != code,
            None => forall|j: int| 0 <= j < ls.len() ==> ls[j].1 != code,
        },
    decreases ls.len(),
{
    if ls.len() > 0 && ls[0].1 != code {
        lemma_lang_index(ls.drop_first(), code);
        match lang_index(ls, code) {
            Some(i) => {
                assert(ls[i] == ls.drop_first()[i - 1]);
                assert forall|j: int| 0 <= j < i implies ls[j].1 != code by {
                    if j > 0 {
                        assert(ls[j] == ls.drop_first()[j - 1]);
                    }
                }
            },
            None => {
                assert forall|j: int| 0 <= j < ls.len() implies ls[j].1 != code by {
                    if j > 0 {
                        assert(ls[j] == ls.drop_first()[j - 1]);
                    }
                }
            },
        }
    }
}

/// The index of the first language with the given code, if any.
fn find_lang(languages: &Vec<Language>, code: &str) -> (r: Option<usize>)
    ensures
        match r {
            Some(i) => lang_index(langs_view(languages@), code@) == Some(i as int) && i
                < languages@.len(),
            None => lang_index(langs_view(languages@), code@) is None,
        },
{
    let ghost lv = langs_view(languages@);
    let mut i: usize = 0;
    while i < languages.len()
        invariant
            i <= languages@.len(),
            lv == langs_view(languages@),
            forall|j: int| 0 <= j < i ==> (#[trigger] lv[j]).1 != code@,
        decreases languages@.len() - i,
    {
        if str_eq(languages[i].code.as_str(), code) {
            proof {
                lemma_lang_index(lv, code@);
                match lang_index(lv, code@) {
                    Some(w) => {
                        assert(w >= i) by {
                            if w < i {
                                assert(lv[w].1 != code@);
                            }
                        }
                        assert(w <= i) by {
                            if w > i {
                                assert(lv[i as int].1 != code@);
                            }
                        }
                    },
                    None => {
                        assert(lv[i as int].1 != code@);
                    },
                }
            }
            return Some(i);
        }
        i = i + 1;
    }
    proof {
        lemma_lang_index(lv, code@);
        match lang_index(lv, code@) {
            Some(w) => {
                assert(lv[w].1 != code@);
            },
            None => {},
        }
    }
    None
}

impl LanguageList {
    /// An empty list.
    pub fn new() -> (r: Self)
        ensures
            r.languages@ == Seq::<Language>::empty(),
    {
        LanguageList { languages: Vec::new() }
    }

    /// Whether a candidate code has the `xx_XX` shape.
    pub fn is_valid_code(code: &str) -> (r: bool)
        ensures
            r == valid_code(code@),
    {
        let n = code.unicode_len();
        if n != 5 {
            return false;
        }
        let c0 = code.get_char(0);
        let c1 = code.get_char(1);
        let c2 = code.get_char(2);
        let c3 = code.get_char(3);
        let c4 = code.get_char(4);
        ('a' <= c0 && c0 <= 'z') && ('a' <= c1 && c1 <= 'z') && c2 == '_' && ('A' <= c3 && c3
            <= 'Z') && ('A' <= c4 && c4 <= 'Z')
    }

    /// Adds a language unless its code is already present.
    pub fn add(&mut self, name: &str, code: &str)
        ensures
            lang_index(langs_view(old(self).languages@), code@) is Some ==> final(self).languages@ == old(self).languages@,
            lang_index(langs_view(old(self).languages@), code@) is None ==> langs_view(
                final(self).languages@,
            ) == langs_view(old(self).languages@).push((name@, code@)),
    {
        match find_lang(&self.languages, code) {
            Some(_) => {
            },
            None => {
                let ghost lv = langs_view(self.languages@);
                self.languages.push(
                    Language { name: name.to_owned(), code: code.to_owned() },
                );
                proof {
                    assert(langs_view(self.languages@) =~= lv.push((name@, code@)));
                }
            },
        }
    }

    /// The first language with the given code; an invalid code finds
    /// nothing.
    pub fn get(&self, code: &str) -> (r: Option<&Language>)
        ensures
            !valid_code(code@) ==> r is None,
            valid_code(code@) ==> match lang_index(langs_view(self.languages@), code@) {
                Some(i) => (r matches Some(l) && *l == self.languages@[i]),
                None => r is None,
            },
    {
        if !Self::is_valid_code(code) {
            return None;
        }
        match find_lang(&self.languages, code) {
            Some(i) => Some(&self.languages[i]),
            None => None,
        }
    }
}

// ---------------------------------------------------------------------------
// The translator
// ---------------------------------------------------------------------------

/// A lowercase letter or underscore.
pub open spec fn lower_us(c: char) -> bool {
    ('a' <= c && c <= 'z') || c == '_'
}

/// Whether, after the first `:`, the rest splits as one to sixteen
/// letters or underscores, one arbitrary character, then one to
/// sixty-four letters or underscores, at the split point `b`.
pub open spec fn valid_key_tail(rest: Seq<char>, b: int) -> bool {
    &&& 1 <= b <= 16
    &&& b + 2 <= rest.len() <= b + 65
    &&& (forall|i: int| 0 <= i < b ==> lower_us(#[trigger] rest[i]))
    &&& (forall|i: int| b + 1 <= i < rest.len() ==> lower_us(#[trigger] rest[i]))
}

/// Whether a raw translation key is acceptable: one to sixteen lowercase
/// letters, a `:`, then a tail that splits as [`valid_key_tail`] somewhere.
pub open spec fn valid_translation_key(s: Seq<char>) -> bool {
    &&& has_char_in(s, ':')
    &&& 1 <= first_pos_of(s, ':') <= 16
    &&& (forall|i: int|
        0 <= i < first_pos_of(s, ':') ==> ('a' <= #[trigger] s[i] && s[i] <= 'z'))
    &&& (exists|b: int| #[trigger] valid_key_tail(s.skip(first_pos_of(s, ':') + 1), b))
}

/// Translations for one language, keyed by structured identifier.
#[derive(Debug)]
pub struct Translator {
    pub language: Language,
    pub translations: Vec<(TranslationID, String)>,
}

/// The identifier and text of each translation entry.
pub open spec fn trans_view(s: Seq<(TranslationID, String)>) -> Seq<
    ((Seq<char>, Seq<char>, Seq<char>), Seq<char>),
> {
    Seq::new(s.len(), |i: int| (tid_view(s[i].0), s[i].1@))
}

/// The text of the first entry with the given identifier, if any.
pub open spec fn trans_lookup(
    es: Seq<((Seq<char>, Seq<char>, Seq<char>), Seq<char>)>,
    key: (Seq<char>, Seq<char>, Seq<char>),
) -> Option<Seq<char>>
    decreases es.len(),
{
    if es.len() == 0 {
        None
    } else if es[0].0 == key {
        Some(es[0].1)
    } else {
        trans_lookup(es.drop_first(), key)
    }
}

/// Every occurrence of a non-empty pattern replaced, scanning left to
/// right without overlap; the substituted text is scanned onward, not
/// again.
pub open spec fn replace_all(s: Seq<char>, pat: Seq<char>, val: Seq<char>) -> Seq<char>
    recommends
        pat.len() > 0,
    decreases s.len(),
{
    if s.len() < pat.len() || pat.len() == 0 {
        s
    } else if s.take(pat.len() as int) == pat {
        val + replace_all(s.skip(pat.len() as int), pat, val)
    } else {
        seq![s[0]] + replace_all(s.skip(1), pat, val)
    }
}

/// The placeholder pattern for a variable name: `{name}`.
pub open spec fn brace_pat(name: Seq<char>) -> Seq<char> {
    seq!['{'] + name + seq!['}']
}

/// The text after substituting each variable in turn: every `{name}` is
/// replaced by the variable's value, one variable after the other.
pub open spec fn apply_vars(s: Seq<char>, vars: Seq<(Seq<char>, Seq<char>)>) -> Seq<char>
    decreases vars.len(),
{
    if vars.len() == 0 {
        s
    } else {
        apply_vars(replace_all(s, brace_pat(vars[0].0), vars[0].1), vars.drop_first())
    }
}

/// The flat string-to-string entries of a YAML mapping document, sorted by
/// key, or nothing when the document is not such a mapping.
pub uninterp spec fn yaml_flat_entries(s: Seq<char>) -> Option<Seq<(Seq<char>, Seq<char>)>>;

/// Relies on serde_yaml::from_str, deserializing into a
/// BTreeMap<String, String>: parses a flat YAML mapping of strings to
/// strings and hands its entries out sorted by key, a function of the
/// document text alone.
#[verifier::external_body]
fn parse_flat_yaml(s: &str) -> (r: Option<Vec<(String, String)>>)
    ensures
        ({
            match r {
                Some(v) => (yaml_flat_entries(s@) matches Some(e) && pairs_view(v@) == e),
                None => yaml_flat_entries(s@) is None,
            }
        }),
{
    match serde_yaml::from_str::<std::collections::BTreeMap<String, String>>(s) {
        Ok(m) => Some(m.into_iter().collect()),
        Err(_) => None,
    }
}

/// The translation entries a list of raw pairs yields: a pair with an
/// acceptable key becomes an entry under its parsed identifier, a pair
/// with an unacceptable key is skipped, and an acceptable key that still
/// has no `.` after its `:` fails the whole load.
pub open spec fn load_entries(pairs: Seq<(Seq<char>, Seq<char>)>) -> Result<
    Seq<((Seq<char>, Seq<char>, Seq<char>), Seq<char>)>,
    Seq<char>,
>
    decreases pairs.len(),
{
    if pairs.len() == 0 {
        Ok(Seq::empty())
    } else {
        let k = pairs[0].0;
        if valid_translation_key(k) {
            if tid_text_ok(k) {
                match load_entries(pairs.drop_first()) {
                    Ok(rest) => Ok(seq![(tid_of_text(k), pairs[0].1)] + rest),
                    Err(e) => Err(e),
                }
            } else {
                Err(k)
            }
        } else {
            load_entries(pairs.drop_first())
        }
    }
}

impl Translator {
    /// Whether a raw translation key is acceptable.
    pub fn is_valid_identifier(identifier: &str) -> (r: bool)
        ensures
            r == valid_translation_key(identifier@),
    {
        let chars = chars_of(identifier);
        proof {
            lemma_first_pos_of(chars@, ':');
        }
        let a = match find_char(&chars, ':') {
            Some(i) => i,
            None => {
                return false;
            },
        };
        if a < 1 || a > 16 {
            return false;
        }
        let mut i: usize = 0;
        while i < a
            invariant
                a < chars@.len(),
                chars@ == identifier@,
                has_char_in(identifier@, ':'),
                a == first_pos_of(identifier@, ':'),
                i <= a,
                forall|j: int| 0 <= j < i ==> ('a' <= #[trigger] chars@[j] && chars@[j] <= 'z'),
            decreases a - i,
        {
            let c = chars[i];
            if !('a' <= c && c <= 'z') {
                return false;
            }
            i = i + 1;
        }
        let rest = subvec(&chars, a + 1, chars.len());
        proof {
            assert(rest@ =~= chars@.skip(a + 1));
        }
        let m = rest.len();
        let mut bad_first: Option<usize> = None;
        let mut bad_second: Option<usize> = None;
        let mut k: usize = 0;
        while k < m
            invariant
                m == rest@.len(),
                k <= m,
                match bad_first {
                    None => (bad_second is None && forall|j: int|
                        0 <= j < k ==> lower_us(#[trigger] rest@[j])),
                    Some(p) => p < k && !lower_us(rest@[p as int]) && (match bad_second {
                        None => forall|j: int|
                            0 <= j < k && j != p ==> lower_us(#[trigger] rest@[j]),
                        Some(q) => p < q < k && !lower_us(rest@[q as int]),
                    }),
                },
            decreases m - k,
        {
            let c = rest[k];
            if !(('a' <= c && c <= 'z') || c == '_') {
                match bad_first {
                    None => {
                        bad_first = Some(k);
                    },
                    Some(_) => {
                        match bad_second {
                            None => {
                                bad_second = Some(k);
                            },
                            Some(_) => {
                            },
                        }
                    },
                }
            }
            k = k + 1;
        }
        match (bad_first, bad_second) {
            (Some(p), Some(q)) => {
                proof {
                    assert forall|b: int| !valid_key_tail(rest@, b) by {
                        if valid_key_tail(rest@, b) {
                            if b != p {
                                assert(lower_us(rest@[p as int]));
                            } else {
                                assert(lower_us(rest@[q as int]));
                            }
                        }
                    }
                }
                false
            },
            (Some(p), None) => {
                let ok = 1 <= p && p <= 16 && p + 2 <= m && m <= p + 65;
                proof {
                    if ok {
                        assert(valid_key_tail(rest@, p as int));
                    } else {
                        assert forall|b: int| !valid_key_tail(rest@, b) by {
                            if valid_key_tail(rest@, b) {
                                if b != p {
                                    assert(lower_us(rest@[p as int]));
                                }
                            }
                        }
                    }
                }
                ok
            },
            (None, _) => {
                if m < 3 {
                    proof {
                        assert forall|b: int| !valid_key_tail(rest@, b) by {}
                    }
                    false
                } else {
                    let upper: usize = if m - 2 < 16 {
                        m - 2
                    } else {
                        16
                    };
                    let lower: usize = if m > 66 {
                        m - 65
                    } else {
                        1
                    };
                    let ok = lower <= upper;
                    proof {
                        if ok {
                            assert(valid_key_tail(rest@, lower as int));
                        } else {
                            assert forall|b: int| !valid_key_tail(rest@, b) by {}
                        }
                    }
                    ok
                }
            },
        }
    }

    /// Builds a translator from translation-file text: the file must be a
    /// flat YAML mapping; pairs with unacceptable keys are skipped, and an
    /// acceptable key without a `.` after its `:` is a configuration
    /// error.
    pub fn load_from_str(language: Language, content: &str) -> (r: Result<Self, String>)
        ensures
            match yaml_flat_entries(content@) {
                None => (r matches Err(m) && m@ == "could not parse translation file"@),
                Some(pairs) => match load_entries(pairs) {
                    Err(k) => (r matches Err(m) && m@ == "invalid translation key: "@ + k),
                    Ok(entries) => (r matches Ok(t) && t.language == language && trans_view(
                        t.translations@,
                    ) == entries),
                },
            },
    {
        let pairs = match parse_flat_yaml(content) {
            Some(v) => v,
            None => {
                return Err("could not parse translation file".to_owned());
            },
        };
        let ghost pv = pairs_view(pairs@);
        let mut translations: Vec<(TranslationID, String)> = Vec::new();
        let mut i: usize = 0;
        proof {
            assert(pv.skip(0) =~= pv);
            match load_entries(pv) {
                Ok(e) => {
                    assert(trans_view(translations@) + e =~= e);
                },
                Err(_) => {},
            }
        }
        while i < pairs.len()
            invariant
                i <= pairs@.len(),
                pv == pairs_view(pairs@),
                yaml_flat_entries(content@) == Some(pv),
                match load_entries(pv.skip(i as int)) {
                    Ok(rest) => load_entries(pv) matches Ok(all) && all == trans_view(
                        translations@,
                    ) + rest,
                    Err(e) => load_entries(pv) == Err::<
                        Seq<((Seq<char>, Seq<char>, Seq<char>), Seq<char>)>,
                        Seq<char>,
                    >(e),
                },
            decreases pairs@.len() - i,
        {
            let ghost restp = pv.skip(i as int);
            let ghost tv0 = trans_view(translations@);
            proof {
                assert(restp[0] == pv[i as int]);
                assert(restp.drop_first() =~= pv.skip(i + 1 as int));
            }
            let key = &pairs[i].0;
            proof {
                assert(restp[0].0 == pairs@[i as int].0@);
                assert(restp[0].1 == pairs@[i as int].1@);
            }
            if Self::is_valid_identifier(key.as_str()) {
                match TranslationID::parse(key.as_str()) {
                    Some(t) => {
                        translations.push((t, pairs[i].1.clone()));
                        proof {
                            assert(valid_translation_key(restp[0].0));
                            assert(tid_text_ok(restp[0].0));
                            assert(trans_view(translations@) =~= tv0.push(
                                (tid_of_text(restp[0].0), restp[0].1),
                            ));
                            match load_entries(pv.skip(i + 1 as int)) {
                                Ok(rest) => {
                                    assert(tv0.push((tid_of_text(restp[0].0), restp[0].1)) + rest
                                        =~= tv0 + (seq![(tid_of_text(restp[0].0), restp[0].1)]
                                        + rest));
                                },
                                Err(_) => {},
                            }
                        }
                    },
                    None => {
                        let mut msg = String::new();
                        msg.append("invalid translation key: ");
                        msg.append(key.as_str());
                        proof {
                            assert(valid_translation_key(restp[0].0));
                            assert(!tid_text_ok(restp[0].0));
                            assert(load_entries(restp) == Err::<
                                Seq<((Seq<char>, Seq<char>, Seq<char>), Seq<char>)>,
                                Seq<char>,
                            >(restp[0].0));
                            assert(msg@ =~= "invalid translation key: "@ + restp[0].0);
                        }
                        return Err(msg);
                    },
                }
            } else {
                proof {
                    assert(!valid_translation_key(restp[0].0));
                    assert(load_entries(restp) == load_entries(pv.skip(i + 1 as int)));
                }
            }
            i = i + 1;
        }
        proof {
            assert(pv.skip(pairs@.len() as int) =~= Seq::<(Seq<char>, Seq<char>)>::empty());
            match load_entries(pv) {
                Ok(e) => {
                    assert(trans_view(translations@) + Seq::<
                        ((Seq<char>, Seq<char>, Seq<char>), Seq<char>),
                    >::empty() =~= trans_view(translations@));
                },
                Err(_) => {},
            }
        }
        Ok(Translator { language, translations })
    }

    /// The translation for an identifier with each `{name}` placeholder
    /// replaced by its variable, in the order given; an identifier without
    /// a translation falls back to its own `namespace:category.name` text.
    pub fn translate(&self, id: &TranslationID, vars: Option<&Vec<(String, String)>>) -> (r:
        String)
        ensures
            ({
                let vs = match vars {
                    Some(v) => pairs_view(v@),
                    None => Seq::<(Seq<char>, Seq<char>)>::empty(),
                };
                match trans_lookup(trans_view(self.translations@), tid_view(*id)) {
                    Some(t) => r@ == apply_vars(t, vs),
                    None => r@ == id.namespace@ + seq![':'] + id.category@ + seq!['.']
                        + id.name@,
                }
            }),
    {
        let ghost tv = trans_view(self.translations@);
        let ghost key = tid_view(*id);
        let n = self.translations.len();
        let mut found: Option<usize> = None;
        let mut i: usize = 0;
        proof {
            assert(tv.skip(0) =~= tv);
        }
        while i < n
            invariant_except_break
                n == self.translations@.len(),
                tv == trans_view(self.translations@),
                key == tid_view(*id),
                i <= n,
                found is None,
                trans_lookup(tv, key) == trans_lookup(tv.skip(i as int), key),
            ensures
                n == self.translations@.len(),
                tv == trans_view(self.translations@),
                key == tid_view(*id),
                match found {
                    Some(f) => f < n && trans_lookup(tv, key) == Some(tv[f as int].1),
                    None => trans_lookup(tv, key) is None,
                },
            decreases n - i,
        {
            let ghost restv = tv.skip(i as int);
            proof {
                assert(restv[0] == tv[i as int]);
                assert(restv.drop_first() =~= tv.skip(i + 1 as int));
            }
            let e = &self.translations[i];
            let same = str_eq(e.0.namespace.as_str(), id.namespace.as_str()) && str_eq(
                e.0.category.as_str(),
                id.category.as_str(),
            ) && str_eq(e.0.name.as_str(), id.name.as_str());
            if same {
                found = Some(i);
                proof {
                    assert(tv[i as int].0 == key);
                    assert(trans_lookup(restv, key) == Some(restv[0].1));
                }
                break ;
            }
            proof {
                assert(tv[i as int].0 != key);
            }
            i = i + 1;
            proof {
                if i == n {
                    assert(tv.skip(n as int) =~= Seq::<
                        ((Seq<char>, Seq<char>, Seq<char>), Seq<char>),
                    >::empty());
                }
            }
        }
        match found {
            Some(i2) => {
                proof {
                    assert(trans_lookup(tv, key) == Some(tv[i2 as int].1));
                }
                let mut text = chars_of(self.translations[i2].1.as_str());
                match vars {
                    Some(vs) => {
                        let ghost vv = pairs_view(vs@);
                        let mut j: usize = 0;
                        proof {
                            assert(vv.skip(0) =~= vv);
                        }
                        while j < vs.len()
                            invariant
                                j <= vs@.len(),
                                vv == pairs_view(vs@),
                                apply_vars(tv[i2 as int].1, vv) == apply_vars(
                                    text@,
                                    vv.skip(j as int),
                                ),
                                i2 < tv.len(),
                                tv == trans_view(self.translations@),
                            decreases vs@.len() - j,
                        {
                            let ghost restv = vv.skip(j as int);
                            proof {
                                assert(restv[0] == vv[j as int]);
                                assert(restv.drop_first() =~= vv.skip(j + 1 as int));
                            }
                            let mut pat: Vec<char> = Vec::new();
                            pat.push('{');
                            push_str_chars(&mut pat, vs[j].0.as_str());
                            pat.push('}');
                            proof {
                                assert(pat@ =~= brace_pat(vv[j as int].0));
                            }
                            let val = chars_of(vs[j].1.as_str());
                            text = replace_chars(&text, &pat, &val);
                            j = j + 1;
                        }
                        proof {
                            assert(vv.skip(vs@.len() as int) =~= Seq::<
                                (Seq<char>, Seq<char>),
                            >::empty());
                        }
                        string_from_chars(&text)
                    },
                    None => string_from_chars(&text),
                }
            },
            None => {
                proof {
                    assert(tv.skip(n as int) =~= Seq::<
                        ((Seq<char>, Seq<char>, Seq<char>), Seq<char>),
                    >::empty());
                }
                let mut out: Vec<char> = Vec::new();
                push_str_chars(&mut out, id.namespace.as_str());
                out.push(':');
                push_str_chars(&mut out, id.category.as_str());
                out.push('.');
                push_str_chars(&mut out, id.name.as_str());
                proof {
                    assert(out@ =~= id.namespace@ + seq![':'] + id.category@ + seq!['.']
                        + id.name@);
                }
                string_from_chars(&out)
            },
        }
    }
}

/// Whether the pattern occurs at the given position.
fn window_eq(v: &Vec<char>, i: usize, pat: &Vec<char>) -> (r: bool)
    requires
        i <= v@.len(),
    ensures
        r == (i + pat@.len() <= v@.len() && v@.subrange(i as int, i + pat@.len()) == pat@),
{
    if pat.len() > v.len() - i {
        return false;
    }
    let m = pat.len();
    let mut j: usize = 0;
    while j < m
        invariant
            m == pat@.len(),
            i + m <= v@.len(),
            v@.len() <= usize::MAX,
            j <= m,
            forall|t: int| 0 <= t < j ==> v@[i + t] == pat@[t],
        decreases m - j,
    {
        if v[i + j] != pat[j] {
            proof {
                assert(v@.subrange(i as int, i + pat@.len())[j as int] == v@[i + j]);
            }
            return false;
        }
        j = j + 1;
    }
    proof {
        assert(v@.subrange(i as int, i + pat@.len()) =~= pat@);
    }
    true
}

/// Every occurrence of a non-empty pattern replaced, left to right.
pub fn replace_chars(v: &Vec<char>, pat: &Vec<char>, val: &Vec<char>) -> (r: Vec<char>)
    requires
        pat@.len() > 0,
    ensures
        r@ == replace_all(v@, pat@, val@),
{
    let mut out: Vec<char> = Vec::new();
    let mut i: usize = 0;
    proof {
        assert(v@.skip(0) =~= v@);
        assert(out@ + replace_all(v@, pat@, val@) =~= replace_all(v@, pat@, val@));
    }
    while i < v.len()
        invariant
            i <= v@.len(),
            pat@.len() > 0,
            replace_all(v@, pat@, val@) == out@ + replace_all(v@.skip(i as int), pat@, val@),
        decreases v@.len() - i,
    {
        let ghost rem = v@.skip(i as int);
        let ghost out0 = out@;
        if window_eq(v, i, pat) {
            proof {
                assert(rem.take(pat@.len() as int) =~= v@.subrange(i as int, i + pat@.len()));
                assert(rem.skip(pat@.len() as int) =~= v@.skip(i + pat@.len()));
            }
            push_chars(&mut out, val);
            proof {
                assert(out@ + replace_all(v@.skip(i + pat@.len()), pat@, val@) =~= out0 + (val@
                    + replace_all(v@.skip(i + pat@.len()), pat@, val@)));
            }
            i = i + pat.len();
        } else {
            proof {
                if rem.len() >= pat@.len() {
                    assert(rem.take(pat@.len() as int) =~= v@.subrange(
                        i as int,
                        i + pat@.len(),
                    ));
                    assert(rem.take(pat@.len() as int) != pat@);
                }
                assert(rem[0] == v@[i as int]);
                assert(rem.skip(1) =~= v@.skip(i + 1 as int));
            }
            out.push(v[i]);
            proof {
                if rem.len() < pat@.len() {
                    assert(replace_all(rem, pat@, val@) == rem);
                    assert(replace_all(rem.skip(1), pat@, val@) == rem.skip(1));
                    assert(out@ + replace_all(v@.skip(i + 1 as int), pat@, val@) =~= out0 + rem);
                } else {
                    assert(out@ + replace_all(v@.skip(i + 1 as int), pat@, val@) =~= out0 + (seq![
                        rem[0],
                    ] + replace_all(rem.skip(1), pat@, val@)));
                }
            }
            i = i + 1;
        }
    }
    proof {
        assert(v@.skip(v@.len() as int) =~= Seq::<char>::empty());
        assert(out@ + replace_all(Seq::<char>::empty(), pat@, val@) =~= out@);
    }
    out
}

} // verus!
