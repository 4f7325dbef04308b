//! Case conversion of field and variant names.
//!
//! A name is split into words at `_` / `-` separators and at case
//! transitions; a rule then rejoins the words in its own style.
use vstd::prelude::*;
use vstd::string::*;

verus! {

/// Case conversion rules for field and variant names.
#[derive(Debug, Clone, Copy, PartialEq, Eq, Structural)]
pub enum RenameRule {
    LowerCase,
    UpperCase,
    CamelCase,
    PascalCase,
    SnakeCase,
    ScreamingSnakeCase,
    KebabCase,
    ScreamingKebabCase,
}

/// What `char::is_uppercase` returns for a character.
pub uninterp spec fn upper_char(c: char) -> bool;

/// What `char::is_lowercase` returns for a character.
pub uninterp spec fn lower_char(c: char) -> bool;

/// The characters that `char::to_uppercase` yields for a character.
pub uninterp spec fn char_to_upper(c: char) -> Seq<char>;

/// The characters that `char::to_lowercase` yields for a character.
pub uninterp spec fn char_to_lower(c: char) -> Seq<char>;

/// What `str::to_lowercase` returns for a string.
pub uninterp spec fn str_to_lower(s: Seq<char>) -> Seq<char>;

/// What `str::to_uppercase` returns for a string.
pub uninterp spec fn str_to_upper(s: Seq<char>) -> Seq<char>;

pub open spec fn is_ascii_char(c: char) -> bool {
    (c as u32) < 128
}

pub open spec fn is_ascii_upper(c: char) -> bool {
    'A' <= c && c <= 'Z'
}

pub open spec fn is_ascii_lower(c: char) -> bool {
    'a' <= c && c <= 'z'
}

/// ASCII upper-casing of one character.
pub open spec fn ascii_upper(c: char) -> char {
    if is_ascii_lower(c) {
        ((c as u32) - 32) as char
    } else {
        c
    }
}

/// ASCII lower-casing of one character.
pub open spec fn ascii_lower(c: char) -> char {
    if is_ascii_upper(c) {
        ((c as u32) + 32) as char
    } else {
        c
    }
}

pub open spec fn all_ascii(s: Seq<char>) -> bool {
    forall|i: int| 0 <= i < s.len() ==> is_ascii_char(#[trigger] s[i])
}

/// Whether a character is upper case: on ASCII exactly `A`..=`Z`.
pub open spec fn upper(c: char) -> bool {
    if is_ascii_char(c) {
        is_ascii_upper(c)
    } else {
        upper_char(c)
    }
}

/// Whether a character is lower case: on ASCII exactly `a`..=`z`.
pub open spec fn lower(c: char) -> bool {
    if is_ascii_char(c) {
        is_ascii_lower(c)
    } else {
        lower_char(c)
    }
}

/// The upper-case mapping of a character.
pub open spec fn char_uppered(c: char) -> Seq<char> {
    if is_ascii_char(c) {
        seq![ascii_upper(c)]
    } else {
        char_to_upper(c)
    }
}

/// The lower-case mapping of a character.
pub open spec fn char_lowered(c: char) -> Seq<char> {
    if is_ascii_char(c) {
        seq![ascii_lower(c)]
    } else {
        char_to_lower(c)
    }
}

/// The lower-case mapping of a string.
pub open spec fn lowered(s: Seq<char>) -> Seq<char> {
    if all_ascii(s) {
        s.map_values(|c: char| ascii_lower(c))
    } else {
        str_to_lower(s)
    }
}

/// The upper-case mapping of a string.
pub open spec fn uppered(s: Seq<char>) -> Seq<char> {
    if all_ascii(s) {
        s.map_values(|c: char| ascii_upper(c))
    } else {
        str_to_upper(s)
    }
}

/// Relies on `char::is_uppercase`; on ASCII it holds exactly of `A`..=`Z`.
#[verifier::external_body]
fn is_upper(c: char) -> (r: bool)
    ensures
        r == upper(c),
        !is_ascii_char(c) ==> r == upper_char(c),
{
    c.is_uppercase()
}

/// Relies on `char::is_lowercase`; on ASCII it holds exactly of `a`..=`z`.
#[verifier::external_body]
fn is_lower(c: char) -> (r: bool)
    ensures
        r == lower(c),
        !is_ascii_char(c) ==> r == lower_char(c),
{
    c.is_lowercase()
}

/// Relies on `char::to_uppercase`: the upper-case mapping of one character,
/// which is the ASCII mapping on ASCII.
#[verifier::external_body]
fn char_upper(c: char) -> (r: String)
    ensures
        r@ == char_uppered(c),
        !is_ascii_char(c) ==> r@ == char_to_upper(c),
{
    c.to_uppercase().collect()
}

/// Relies on `char::to_lowercase`: the lower-case mapping of one character,
/// which is the ASCII mapping on ASCII.
#[verifier::external_body]
fn char_lower(c: char) -> (r: String)
    ensures
        r@ == char_lowered(c),
        !is_ascii_char(c) ==> r@ == char_to_lower(c),
{
    c.to_lowercase().collect()
}

/// Relies on `str::to_lowercase`; on an ASCII string it lower-cases each
/// character.
#[verifier::external_body]
fn lowercase(s: &str) -> (r: String)
    ensures
        r@ == lowered(s@),
        !all_ascii(s@) ==> r@ == str_to_lower(s@),
{
    s.to_lowercase()
}

/// Relies on `str::to_uppercase`; on an ASCII string it upper-cases each
/// character.
#[verifier::external_body]
fn uppercase(s: &str) -> (r: String)
    ensures
        r@ == uppered(s@),
        !all_ascii(s@) ==> r@ == str_to_upper(s@),
{
    s.to_uppercase()
}

/// Relies on `String::push`: appends one character.
#[verifier::external_body]
pub(crate) fn push_char(s: &mut String, c: char)
    ensures
        final(s)@ == old(s)@.push(c),
{
    s.push(c)
}

pub open spec fn is_separator(c: char) -> bool {
    c == '_' || c == '-'
}

pub open spec fn all_upper(w: Seq<char>) -> bool {
    forall|i: int| 0 <= i < w.len() ==> upper(#[trigger] w[i])
}

/// Whether an upper-case character at `i` ends the word collected so far:
/// after a word that is not all upper case, or at the end of an acronym run
/// (the next character is lower case).
pub open spec fn starts_word(s: Seq<char>, i: int, cur: Seq<char>) -> bool {
    cur.len() > 0 && (!all_upper(cur) || (i + 1 < s.len() && lower(s[i + 1])))
}

/// The words of `s[i..]`, given the words already closed and the word being
/// collected.
pub open spec fn split_from(s: Seq<char>, i: int, words: Seq<Seq<char>>, cur: Seq<char>) -> Seq<
    Seq<char>,
>
    decreases s.len() - i,
{
    if i >= s.len() {
        if cur.len() > 0 {
            words.push(cur)
        } else {
            words
        }
    } else {
        let ch = s[i];
        if is_separator(ch) {
            if cur.len() > 0 {
                split_from(s, i + 1, words.push(cur), Seq::empty())
            } else {
                split_from(s, i + 1, words, cur)
            }
        } else if upper(ch) && starts_word(s, i, cur) {
            split_from(s, i + 1, words.push(cur), seq![ch])
        } else {
            split_from(s, i + 1, words, cur.push(ch))
        }
    }
}

/// The words of a name.
pub open spec fn split_words(s: Seq<char>) -> Seq<Seq<char>> {
    split_from(s, 0, Seq::empty(), Seq::empty())
}

/// The words one after another.
pub open spec fn concat_words(ws: Seq<Seq<char>>) -> Seq<char>
    decreases ws.len(),
{
    if ws.len() == 0 {
        Seq::empty()
    } else {
        concat_words(ws.drop_last()) + ws.last()
    }
}

/// The words with `sep` between each two.
pub open spec fn join_words(ws: Seq<Seq<char>>, sep: char) -> Seq<char>
    decreases ws.len(),
{
    if ws.len() == 0 {
        Seq::empty()
    } else if ws.len() == 1 {
        ws[0]
    } else {
        join_words(ws.drop_last(), sep).push(sep) + ws.last()
    }
}

/// Each character lower-cased on its own.
pub open spec fn lower_each(s: Seq<char>) -> Seq<char>
    decreases s.len(),
{
    if s.len() == 0 {
        Seq::empty()
    } else {
        lower_each(s.drop_last()) + char_lowered(s.last())
    }
}

/// The first character upper-cased, the others lower-cased.
pub open spec fn capitalized(s: Seq<char>) -> Seq<char> {
    if s.len() == 0 {
        Seq::empty()
    } else {
        char_uppered(s[0]) + lower_each(s.drop_first())
    }
}

/// The words of a camel-case name: the first lower-cased, the others
/// capitalized.
pub open spec fn camel_words(ws: Seq<Seq<char>>) -> Seq<Seq<char>> {
    Seq::new(
        ws.len(),
        |i: int|
            if i == 0 {
                lowered(ws[i])
            } else {
                capitalized(ws[i])
            },
    )
}

/// What a rule makes of a name.
pub open spec fn apply_rule(rule: RenameRule, name: Seq<char>) -> Seq<char> {
    let ws = split_words(name);
    match rule {
        RenameRule::LowerCase => lowered(concat_words(ws)),
        RenameRule::UpperCase => uppered(concat_words(ws)),
        RenameRule::CamelCase => concat_words(camel_words(ws)),
        RenameRule::PascalCase => concat_words(ws.map_values(|w: Seq<char>| capitalized(w))),
        RenameRule::SnakeCase => join_words(ws.map_values(|w: Seq<char>| lowered(w)), '_'),
        RenameRule::ScreamingSnakeCase => join_words(
            ws.map_values(|w: Seq<char>| uppered(w)),
            '_',
        ),
        RenameRule::KebabCase => join_words(ws.map_values(|w: Seq<char>| lowered(w)), '-'),
        RenameRule::ScreamingKebabCase => join_words(
            ws.map_values(|w: Seq<char>| uppered(w)),
            '-',
        ),
    }
}

/// The rule that a `rename_all` value names, if any.
pub open spec fn rule_named(s: Seq<char>) -> Option<RenameRule> {
    if s == "lowercase"@ {
        Some(RenameRule::LowerCase)
    } else if s == "UPPERCASE"@ {
        Some(RenameRule::UpperCase)
    } else if s == "camelCase"@ {
        Some(RenameRule::CamelCase)
    } else if s == "PascalCase"@ {
        Some(RenameRule::PascalCase)
    } else if s == "snake_case"@ {
        Some(RenameRule::SnakeCase)
    } else if s == "SCREAMING_SNAKE_CASE"@ {
        Some(RenameRule::ScreamingSnakeCase)
    } else if s == "kebab-case"@ {
        Some(RenameRule::KebabCase)
    } else if s == "SCREAMING-KEBAB-CASE"@ {
        Some(RenameRule::ScreamingKebabCase)
    } else {
        None
    }
}

pub open spec fn views(ws: Seq<String>) -> Seq<Seq<char>> {
    ws.map_values(|w: String| w@)
}

fn same_text(a: &str, b: &str) -> (r: bool)
    ensures
        r == (a@ == b@),
{
    let x = String::from_str(a);
    let y = String::from_str(b);
    x == y
}

/// Split a name into words at `_` and `-`, and at case transitions: a
/// lower-to-upper transition starts a word, and a run of upper-case letters
/// stays one word unless its last letter starts a capitalized word
/// (`XMLParser` gives `XML`, `Parser`).
pub fn split_into_words(name: &str) -> (r: Vec<String>)
    ensures
        views(r@) == split_words(name@),
{
    let n = name.unicode_len();
    let mut words: Vec<String> = Vec::new();
    let mut cur = String::new();
    let mut cur_all_upper: bool = true;
    let mut i: usize = 0;
    assert(views(words@) =~= Seq::<Seq<char>>::empty());
    while i < n
        invariant
            n == name@.len(),
            0 <= i <= n,
            split_from(name@, i as int, views(words@), cur@) == split_words(name@),
            cur_all_upper == all_upper(cur@),
        decreases n - i,
    {
        let ch = name.get_char(i);
        let ghost s = name@;
        let ghost old_words = views(words@);
        let ghost old_cur = cur@;
        if ch == '_' || ch == '-' {
            if !cur.as_str().is_empty() {
                words.push(cur);
                cur = String::new();
                cur_all_upper = true;
                assert(views(words@) =~= old_words.push(old_cur));
            }
        } else {
            let ch_upper = is_upper(ch);
            let next_is_lower = i + 1 < n && is_lower(name.get_char(i + 1));
            if ch_upper && !cur.as_str().is_empty() && (!cur_all_upper || next_is_lower) {
                assert(starts_word(s, i as int, old_cur));
                words.push(cur);
                cur = String::new();
                push_char(&mut cur, ch);
                cur_all_upper = true;
                assert(views(words@) =~= old_words.push(old_cur));
                assert(cur@ =~= seq![ch]);
            } else {
                assert(!(upper(ch) && starts_word(s, i as int, old_cur)));
                push_char(&mut cur, ch);
                cur_all_upper = cur_all_upper && ch_upper;
                assert(all_upper(cur@) == (all_upper(old_cur) && upper(ch))) by {
                    if all_upper(old_cur) && upper(ch) {
                        assert forall|k: int| 0 <= k < cur@.len() implies upper(#[trigger] cur@[k]) by {
                            if k < old_cur.len() {
                                assert(cur@[k] == old_cur[k]);
                            }
                        }
                    }
                    if all_upper(cur@) {
                        assert forall|k: int| 0 <= k < old_cur.len() implies upper(#[trigger] old_cur[k]) by {
                            assert(cur@[k] == old_cur[k]);
                        }
                        assert(cur@[old_cur.len() as int] == ch);
                    }
                }
            }
        }
        i = i + 1;
    }
    if !cur.as_str().is_empty() {
        let ghost old_words = views(words@);
        let ghost old_cur = cur@;
        words.push(cur);
        assert(views(words@) =~= old_words.push(old_cur));
    }
    words
}

/// Upper-case the first character and lower-case the others.
pub fn capitalize(s: &str) -> (r: String)
    ensures
        r@ == capitalized(s@),
{
    let n = s.unicode_len();
    if n == 0 {
        return String::new();
    }
    let mut r = char_upper(s.get_char(0));
    let mut i: usize = 1;
    while i < n
        invariant
            n == s@.len(),
            1 <= i <= n,
            r@ == char_uppered(s@[0]) + lower_each(s@.subrange(1, i as int)),
        decreases n - i,
    {
        let c = s.get_char(i);
        let l = char_lower(c);
        r.append(l.as_str());
        assert(s@.subrange(1, i + 1).drop_last() =~= s@.subrange(1, i as int));
        i = i + 1;
    }
    assert(s@.subrange(1, n as int) =~= s@.drop_first());
    r
}

proof fn lemma_concat_push(ws: Seq<Seq<char>>, w: Seq<char>)
    ensures
        concat_words(ws.push(w)) == concat_words(ws) + w,
{
    assert(ws.push(w).drop_last() =~= ws);
}

proof fn lemma_join_push(ws: Seq<Seq<char>>, w: Seq<char>, sep: char)
    ensures
        join_words(ws.push(w), sep) == if ws.len() == 0 {
            w
        } else {
            join_words(ws, sep).push(sep) + w
        },
{
    assert(ws.push(w).drop_last() =~= ws);
}

/// The words one after another.
fn concat_strings(ws: &Vec<String>) -> (r: String)
    ensures
        r@ == concat_words(views(ws@)),
{
    let mut r = String::new();
    let mut i: usize = 0;
    while i < ws.len()
        invariant
            0 <= i <= ws@.len(),
            r@ == concat_words(views(ws@).subrange(0, i as int)),
        decreases ws@.len() - i,
    {
        r.append(ws[i].as_str());
        proof {
            lemma_concat_push(views(ws@).subrange(0, i as int), ws@[i as int]@);
            assert(views(ws@).subrange(0, i as int).push(ws@[i as int]@) =~= views(ws@).subrange(
                0,
                i + 1,
            ));
        }
        i = i + 1;
    }
    assert(views(ws@).subrange(0, ws@.len() as int) =~= views(ws@));
    r
}

/// The words with `sep` between each two.
fn join_strings(ws: &Vec<String>, sep: char) -> (r: String)
    ensures
        r@ == join_words(views(ws@), sep),
{
    let mut r = String::new();
    let mut i: usize = 0;
    while i < ws.len()
        invariant
            0 <= i <= ws@.len(),
            r@ == join_words(views(ws@).subrange(0, i as int), sep),
        decreases ws@.len() - i,
    {
        if i > 0 {
            push_char(&mut r, sep);
        }
        r.append(ws[i].as_str());
        proof {
            lemma_join_push(views(ws@).subrange(0, i as int), ws@[i as int]@, sep);
            assert(views(ws@).subrange(0, i as int).push(ws@[i as int]@) =~= views(ws@).subrange(
                0,
                i + 1,
            ));
        }
        i = i + 1;
    }
    assert(views(ws@).subrange(0, ws@.len() as int) =~= views(ws@));
    r
}

/// How each word is rewritten before the words are put together.
#[derive(Clone, Copy)]
enum WordCase {
    Lower,
    Upper,
    Capital,
    Camel,
}

spec fn word_case(c: WordCase, i: int, w: Seq<char>) -> Seq<char> {
    match c {
        WordCase::Lower => lowered(w),
        WordCase::Upper => uppered(w),
        WordCase::Capital => capitalized(w),
        WordCase::Camel => if i == 0 {
            lowered(w)
        } else {
            capitalized(w)
        },
    }
}

/// Each word rewritten in the given case.
fn recase_words(ws: &Vec<String>, c: WordCase) -> (r: Vec<String>)
    ensures
        views(r@) == Seq::new(ws@.len(), |i: int| word_case(c, i, ws@[i]@)),
{
    let mut r: Vec<String> = Vec::new();
    let mut i: usize = 0;
    while i < ws.len()
        invariant
            0 <= i <= ws@.len(),
            views(r@) == Seq::new(i as nat, |k: int| word_case(c, k, ws@[k]@)),
        decreases ws@.len() - i,
    {
        let w = ws[i].as_str();
        let x = match c {
            WordCase::Lower => lowercase(w),
            WordCase::Upper => uppercase(w),
            WordCase::Capital => capitalize(w),
            WordCase::Camel => if i == 0 {
                lowercase(w)
            } else {
                capitalize(w)
            },
        };
        let ghost before = views(r@);
        r.push(x);
        assert(views(r@) =~= before.push(x@));
        assert(views(r@) =~= Seq::new((i + 1) as nat, |k: int| word_case(c, k, ws@[k]@)));
        i = i + 1;
    }
    r
}

impl RenameRule {
    /// Parse a `rename_all` value into a rule.
    pub fn from_str(s: &str) -> (r: Option<RenameRule>)
        ensures
            r == rule_named(s@),
    {
        if same_text(s, "lowercase") {
            Some(RenameRule::LowerCase)
        } else if same_text(s, "UPPERCASE") {
            Some(RenameRule::UpperCase)
        } else if same_text(s, "camelCase") {
            Some(RenameRule::CamelCase)
        } else if same_text(s, "PascalCase") {
            Some(RenameRule::PascalCase)
        } else if same_text(s, "snake_case") {
            Some(RenameRule::SnakeCase)
        } else if same_text(s, "SCREAMING_SNAKE_CASE") {
            Some(RenameRule::ScreamingSnakeCase)
        } else if same_text(s, "kebab-case") {
            Some(RenameRule::KebabCase)
        } else if same_text(s, "SCREAMING-KEBAB-CASE") {
            Some(RenameRule::ScreamingKebabCase)
        } else {
            None
        }
    }

    /// Apply the rule to a field or variant name.
    pub fn apply(&self, name: &str) -> (r: String)
        ensures
            r@ == apply_rule(*self, name@),
    {
        let words = split_into_words(name);
        let ghost ws = split_words(name@);
        match self {
            RenameRule::LowerCase => {
                let c = concat_strings(&words);
                lowercase(c.as_str())
            },
            RenameRule::UpperCase => {
                let c = concat_strings(&words);
                uppercase(c.as_str())
            },
            RenameRule::CamelCase => {
                let parts = recase_words(&words, WordCase::Camel);
                let r = concat_strings(&parts);
                assert(views(parts@) =~= camel_words(ws));
                r
            },
            RenameRule::PascalCase => {
                let parts = recase_words(&words, WordCase::Capital);
                let r = concat_strings(&parts);
                assert(views(parts@) =~= ws.map_values(|w: Seq<char>| capitalized(w)));
                r
            },
            RenameRule::SnakeCase => {
                let parts = recase_words(&words, WordCase::Lower);
                let r = join_strings(&parts, '_');
                assert(views(parts@) =~= ws.map_values(|w: Seq<char>| lowered(w)));
                r
            },
            RenameRule::ScreamingSnakeCase => {
                let parts = recase_words(&words, WordCase::Upper);
                let r = join_strings(&parts, '_');
                assert(views(parts@) =~= ws.map_values(|w: Seq<char>| uppered(w)));
                r
            },
            RenameRule::KebabCase => {
                let parts = recase_words(&words, WordCase::Lower);
                let r = join_strings(&parts, '-');
                assert(views(parts@) =~= ws.map_values(|w: Seq<char>| lowered(w)));
                r
            },
            RenameRule::ScreamingKebabCase => {
                let parts = recase_words(&words, WordCase::Upper);
                let r = join_strings(&parts, '-');
                assert(views(parts@) =~= ws.map_values(|w: Seq<char>| uppered(w)));
                r
            },
        }
    }
}

/// The characters of `s` other than `_` and `-`.
pub open spec fn strip_separators(s: Seq<char>) -> Seq<char>
    decreases s.len(),
{
    if s.len() == 0 {
        Seq::empty()
    } else if is_separator(s[0]) {
        strip_separators(s.drop_first())
    } else {
        seq![s[0]] + strip_separators(s.drop_first())
    }
}

proof fn lemma_split_from_concat(s: Seq<char>, i: int, words: Seq<Seq<char>>, cur: Seq<char>)
    requires
        0 <= i <= s.len(),
    ensures
        concat_words(split_from(s, i, words, cur)) == concat_words(words) + cur + strip_separators(
            s.subrange(i, s.len() as int),
        ),
    decreases s.len() - i,
{
    let rest = s.subrange(i, s.len() as int);
    if i >= s.len() {
        assert(rest =~= Seq::<char>::empty());
        if cur.len() > 0 {
            lemma_concat_push(words, cur);
        }
        assert(concat_words(words) + cur + Seq::<char>::empty() =~= concat_words(words) + cur);
        assert(concat_words(words) + Seq::<char>::empty() =~= concat_words(words));
    } else {
        let ch = s[i];
        assert(rest.drop_first() =~= s.subrange(i + 1, s.len() as int));
        assert(rest[0] == ch);
        let tail = strip_separators(s.subrange(i + 1, s.len() as int));
        if is_separator(ch) {
            if cur.len() > 0 {
                lemma_split_from_concat(s, i + 1, words.push(cur), Seq::empty());
                lemma_concat_push(words, cur);
                assert(concat_words(words.push(cur)) + Seq::<char>::empty() + tail
                    =~= concat_words(words) + cur + tail);
            } else {
                lemma_split_from_concat(s, i + 1, words, cur);
            }
        } else if upper(ch) && starts_word(s, i, cur) {
            lemma_split_from_concat(s, i + 1, words.push(cur), seq![ch]);
            lemma_concat_push(words, cur);
            assert(concat_words(words.push(cur)) + seq![ch] + tail =~= concat_words(words) + cur + (
            seq![ch] + tail));
        } else {
            lemma_split_from_concat(s, i + 1, words, cur.push(ch));
            assert(concat_words(words) + cur.push(ch) + tail =~= concat_words(words) + cur + (seq![ch]
                + tail));
        }
    }
}

/// Putting the words of a name together gives the name without its
/// separators.
pub proof fn lemma_concat_split(s: Seq<char>)
    ensures
        concat_words(split_words(s)) == strip_separators(s),
{
    lemma_split_from_concat(s, 0, Seq::empty(), Seq::empty());
    assert(s.subrange(0, s.len() as int) =~= s);
    assert(concat_words(Seq::<Seq<char>>::empty()) + Seq::<char>::empty() + strip_separators(s)
        =~= strip_separators(s));
}

proof fn lemma_strip_ascii(s: Seq<char>)
    requires
        all_ascii(s),
    ensures
        all_ascii(strip_separators(s)),
    decreases s.len(),
{
    if s.len() > 0 {
        assert(all_ascii(s.drop_first())) by {
            assert forall|k: int| 0 <= k < s.drop_first().len() implies is_ascii_char(
                #[trigger] s.drop_first()[k],
            ) by {
                assert(s.drop_first()[k] == s[k + 1]);
            }
        }
        lemma_strip_ascii(s.drop_first());
        let t = strip_separators(s.drop_first());
        if !is_separator(s[0]) {
            assert forall|k: int| 0 <= k < (seq![s[0]] + t).len() implies is_ascii_char(
                #[trigger] (seq![s[0]] + t)[k],
            ) by {
                if k > 0 {
                    assert((seq![s[0]] + t)[k] == t[k - 1]);
                }
            }
        }
    }
}

/// A string without separators stays as it is.
proof fn lemma_strip_none(s: Seq<char>)
    requires
        forall|k: int| 0 <= k < s.len() ==> !is_separator(#[trigger] s[k]),
    ensures
        strip_separators(s) == s,
    decreases s.len(),
{
    if s.len() > 0 {
        assert forall|k: int| 0 <= k < s.drop_first().len() implies !is_separator(
            #[trigger] s.drop_first()[k],
        ) by {
            assert(s.drop_first()[k] == s[k + 1]);
        }
        lemma_strip_none(s.drop_first());
        assert(seq![s[0]] + s.drop_first() =~= s);
    }
}

proof fn lemma_strip_has_none(s: Seq<char>)
    ensures
        forall|k: int|
            0 <= k < strip_separators(s).len() ==> !is_separator(#[trigger] strip_separators(s)[k]),
    decreases s.len(),
{
    if s.len() > 0 {
        lemma_strip_has_none(s.drop_first());
        let t = strip_separators(s.drop_first());
        if !is_separator(s[0]) {
            assert forall|k: int| 0 <= k < (seq![s[0]] + t).len() implies !is_separator(
                #[trigger] (seq![s[0]] + t)[k],
            ) by {
                if k > 0 {
                    assert((seq![s[0]] + t)[k] == t[k - 1]);
                }
            }
        }
    }
}

/// Lower-casing an ASCII name twice gives what lower-casing it once gives.
pub proof fn lemma_lowercase_idempotent(name: Seq<char>)
    requires
        all_ascii(name),
    ensures
        apply_rule(RenameRule::LowerCase, apply_rule(RenameRule::LowerCase, name)) == apply_rule(
            RenameRule::LowerCase,
            name,
        ),
{
    lemma_concat_split(name);
    let m = strip_separators(name);
    lemma_strip_ascii(name);
    lemma_strip_has_none(name);
    let t = m.map_values(|c: char| ascii_lower(c));
    assert(apply_rule(RenameRule::LowerCase, name) == t);
    assert forall|k: int| 0 <= k < t.len() implies !is_separator(#[trigger] t[k]) && is_ascii_char(
        t[k],
    ) by {
        assert(t[k] == ascii_lower(m[k]));
        assert(!is_separator(m[k]) && is_ascii_char(m[k]));
    }
    lemma_concat_split(t);
    lemma_strip_none(t);
    let u = t.map_values(|c: char| ascii_lower(c));
    assert(u =~= t);
}

/// Upper-casing an ASCII name twice gives what upper-casing it once gives.
pub proof fn lemma_uppercase_idempotent(name: Seq<char>)
    requires
        all_ascii(name),
    ensures
        apply_rule(RenameRule::UpperCase, apply_rule(RenameRule::UpperCase, name)) == apply_rule(
            RenameRule::UpperCase,
            name,
        ),
{
    lemma_concat_split(name);
    let m = strip_separators(name);
    lemma_strip_ascii(name);
    lemma_strip_has_none(name);
    let t = m.map_values(|c: char| ascii_upper(c));
    assert(apply_rule(RenameRule::UpperCase, name) == t);
    assert forall|k: int| 0 <= k < t.len() implies !is_separator(#[trigger] t[k]) && is_ascii_char(
        t[k],
    ) by {
        assert(t[k] == ascii_upper(m[k]));
        assert(!is_separator(m[k]) && is_ascii_char(m[k]));
    }
    lemma_concat_split(t);
    lemma_strip_none(t);
    let u = t.map_values(|c: char| ascii_upper(c));
    assert(u =~= t);
}

/// A word as the splitter leaves it in a lower-case name: not empty, and
/// without separators or upper-case characters.
pub open spec fn plain_word(w: Seq<char>) -> bool {
    &&& w.len() > 0
    &&& forall|k: int| 0 <= k < w.len() ==> !is_separator(#[trigger] w[k]) && !upper(w[k])
}

proof fn lemma_split_plain_run(s: Seq<char>, i: int, w: Seq<char>, words: Seq<Seq<char>>, cur: Seq<char>)
    requires
        0 <= i,
        i + w.len() <= s.len(),
        s.subrange(i, i + w.len()) == w,
        forall|k: int| 0 <= k < w.len() ==> !is_separator(#[trigger] w[k]) && !upper(w[k]),
    ensures
        split_from(s, i, words, cur) == split_from(s, i + w.len(), words, cur + w),
    decreases w.len(),
{
    if w.len() == 0 {
        assert(cur + w =~= cur);
    } else {
        assert(s[i] == w[0]);
        let w2 = w.drop_first();
        assert(s.subrange(i + 1, i + 1 + w2.len()) =~= w2);
        assert forall|k: int| 0 <= k < w2.len() implies !is_separator(#[trigger] w2[k]) && !upper(
            w2[k],
        ) by {
            assert(w2[k] == w[k + 1]);
        }
        lemma_split_plain_run(s, i + 1, w2, words, cur.push(w[0]));
        assert(cur.push(w[0]) + w2 =~= cur + w);
    }
}

proof fn lemma_join_front(ws: Seq<Seq<char>>, sep: char)
    requires
        ws.len() >= 2,
    ensures
        join_words(ws, sep) == ws[0] + seq![sep] + join_words(ws.drop_first(), sep),
    decreases ws.len(),
{
    if ws.len() == 2 {
        assert(ws.drop_last() =~= seq![ws[0]]);
        assert(ws.drop_first() =~= seq![ws[1]]);
        assert(join_words(ws.drop_last(), sep) == ws[0]);
        assert(join_words(ws.drop_first(), sep) == ws[1]);
        assert(ws[0].push(sep) + ws[1] =~= ws[0] + seq![sep] + ws[1]);
    } else {
        lemma_join_front(ws.drop_last(), sep);
        assert(ws.drop_last().drop_first() =~= ws.drop_first().drop_last());
        assert(ws.drop_first().last() == ws.last());
        let j = join_words(ws.drop_first().drop_last(), sep);
        assert(join_words(ws.drop_last(), sep) == ws[0] + seq![sep] + j);
        assert(join_words(ws.drop_first(), sep) == j.push(sep) + ws.last());
        assert((ws[0] + seq![sep] + j).push(sep) + ws.last() =~= ws[0] + seq![sep] + (j.push(sep)
            + ws.last()));
    }
}

proof fn lemma_split_join(p: Seq<char>, ws: Seq<Seq<char>>, sep: char, words: Seq<Seq<char>>)
    requires
        is_separator(sep),
        forall|k: int| 0 <= k < ws.len() ==> plain_word(#[trigger] ws[k]),
    ensures
        split_from(p + join_words(ws, sep), p.len() as int, words, Seq::empty()) == words + ws,
    decreases ws.len(),
{
    let s = p + join_words(ws, sep);
    if ws.len() == 0 {
        assert(words + ws =~= words);
    } else if ws.len() == 1 {
        let w = ws[0];
        assert(plain_word(w));
        assert(s.subrange(p.len() as int, (p.len() + w.len()) as int) =~= w);
        lemma_split_plain_run(s, p.len() as int, w, words, Seq::empty());
        assert(Seq::<char>::empty() + w =~= w);
        assert(words + ws =~= words.push(w));
    } else {
        lemma_join_front(ws, sep);
        let w = ws[0];
        assert(plain_word(w));
        let rest = ws.drop_first();
        let p2 = p + w + seq![sep];
        assert(s =~= p2 + join_words(rest, sep));
        assert(s.subrange(p.len() as int, (p.len() + w.len()) as int) =~= w);
        lemma_split_plain_run(s, p.len() as int, w, words, Seq::empty());
        assert(Seq::<char>::empty() + w =~= w);
        assert(s[(p.len() + w.len()) as int] == sep);
        assert forall|k: int| 0 <= k < rest.len() implies plain_word(#[trigger] rest[k]) by {
            assert(rest[k] == ws[k + 1]);
        }
        lemma_split_join(p2, rest, sep, words.push(w));
        assert(words.push(w) + rest =~= words + ws);
    }
}

/// Every word of a name is non-empty, has no separators, and is ASCII when
/// the name is.
pub open spec fn split_word_ok(name: Seq<char>, w: Seq<char>) -> bool {
    &&& w.len() > 0
    &&& forall|k: int| 0 <= k < w.len() ==> !is_separator(#[trigger] w[k])
    &&& all_ascii(name) ==> all_ascii(w)
    &&& letters_and_separators(name) ==> letters_and_separators(w)
}

/// Whether every character is an ASCII letter, `_` or `-`.
pub open spec fn letters_and_separators(s: Seq<char>) -> bool {
    forall|k: int|
        0 <= k < s.len() ==> is_separator(#[trigger] s[k]) || is_ascii_upper(s[k])
            || is_ascii_lower(s[k])
}

proof fn lemma_words_push(s: Seq<char>, words: Seq<Seq<char>>, cur: Seq<char>)
    requires
        forall|k: int| 0 <= k < words.len() ==> split_word_ok(s, #[trigger] words[k]),
        split_word_ok(s, cur),
    ensures
        forall|k: int| 0 <= k < words.push(cur).len() ==> split_word_ok(s, #[trigger] words.push(cur)[k]),
{
    assert forall|k: int| 0 <= k < words.push(cur).len() implies split_word_ok(
        s,
        #[trigger] words.push(cur)[k],
    ) by {
        if k < words.len() {
            assert(words.push(cur)[k] == words[k]);
        }
    }
}

proof fn lemma_split_from_words(s: Seq<char>, i: int, words: Seq<Seq<char>>, cur: Seq<char>)
    requires
        0 <= i <= s.len(),
        forall|k: int| 0 <= k < words.len() ==> split_word_ok(s, #[trigger] words[k]),
        forall|k: int| 0 <= k < cur.len() ==> !is_separator(#[trigger] cur[k]),
        all_ascii(s) ==> all_ascii(cur),
        letters_and_separators(s) ==> letters_and_separators(cur),
    ensures
        forall|k: int|
            0 <= k < split_from(s, i, words, cur).len() ==> split_word_ok(
                s,
                #[trigger] split_from(s, i, words, cur)[k],
            ),
    decreases s.len() - i,
{
    if i < s.len() {
        let ch = s[i];
        if is_separator(ch) {
            if cur.len() > 0 {
                lemma_words_push(s, words, cur);
                lemma_split_from_words(s, i + 1, words.push(cur), Seq::empty());
                assert(split_from(s, i, words, cur) == split_from(s, i + 1, words.push(cur), Seq::empty()));
            } else {
                lemma_split_from_words(s, i + 1, words, cur);
                assert(split_from(s, i, words, cur) == split_from(s, i + 1, words, cur));
            }
        } else if upper(ch) && starts_word(s, i, cur) {
            lemma_words_push(s, words, cur);
            if all_ascii(s) {
                assert(is_ascii_char(s[i]));
                assert(all_ascii(seq![ch]));
            }
            if letters_and_separators(s) {
                assert(is_separator(s[i]) || is_ascii_upper(s[i]) || is_ascii_lower(s[i]));
                assert(letters_and_separators(seq![ch]));
            }
            lemma_split_from_words(s, i + 1, words.push(cur), seq![ch]);
            assert(split_from(s, i, words, cur) == split_from(s, i + 1, words.push(cur), seq![ch]));
        } else {
            assert forall|k: int| 0 <= k < cur.push(ch).len() implies !is_separator(
                #[trigger] cur.push(ch)[k],
            ) by {
                if k < cur.len() {
                    assert(cur.push(ch)[k] == cur[k]);
                }
            }
            if all_ascii(s) {
                assert forall|k: int| 0 <= k < cur.push(ch).len() implies is_ascii_char(
                    #[trigger] cur.push(ch)[k],
                ) by {
                    if k < cur.len() {
                        assert(cur.push(ch)[k] == cur[k]);
                    }
                }
            }
            if letters_and_separators(s) {
                assert(is_separator(s[i]) || is_ascii_upper(s[i]) || is_ascii_lower(s[i]));
                assert forall|k: int| 0 <= k < cur.push(ch).len() implies is_separator(
                    #[trigger] cur.push(ch)[k],
                ) || is_ascii_upper(cur.push(ch)[k]) || is_ascii_lower(cur.push(ch)[k]) by {
                    if k < cur.len() {
                        assert(cur.push(ch)[k] == cur[k]);
                    }
                }
            }
            lemma_split_from_words(s, i + 1, words, cur.push(ch));
            assert(split_from(s, i, words, cur) == split_from(s, i + 1, words, cur.push(ch)));
        }
    } else {
        if cur.len() > 0 {
            lemma_words_push(s, words, cur);
        }
    }
}

proof fn lemma_lowered_plain(w: Seq<char>)
    requires
        w.len() > 0,
        all_ascii(w),
        forall|k: int| 0 <= k < w.len() ==> !is_separator(#[trigger] w[k]),
    ensures
        plain_word(lowered(w)),
        all_ascii(lowered(w)),
        lowered(lowered(w)) == lowered(w),
{
    let t = w.map_values(|c: char| ascii_lower(c));
    assert forall|k: int| 0 <= k < t.len() implies is_ascii_char(#[trigger] t[k]) && !is_separator(
        t[k],
    ) && !upper(t[k]) by {
        assert(t[k] == ascii_lower(w[k]));
        assert(is_ascii_char(w[k]) && !is_separator(w[k]));
    }
    assert(t.map_values(|c: char| ascii_lower(c)) =~= t);
}

/// Snake-casing an ASCII name twice gives what snake-casing it once gives;
/// so does kebab-casing.
pub proof fn lemma_snake_kebab_idempotent(rule: RenameRule, name: Seq<char>)
    requires
        rule == RenameRule::SnakeCase || rule == RenameRule::KebabCase,
        all_ascii(name),
    ensures
        apply_rule(rule, apply_rule(rule, name)) == apply_rule(rule, name),
{
    let sep = if rule == RenameRule::SnakeCase {
        '_'
    } else {
        '-'
    };
    let ws = split_words(name);
    lemma_split_from_words(name, 0, Seq::empty(), Seq::empty());
    let lw = ws.map_values(|w: Seq<char>| lowered(w));
    assert forall|k: int| 0 <= k < lw.len() implies plain_word(#[trigger] lw[k]) && lowered(lw[k])
        == lw[k] by {
        assert(split_word_ok(name, ws[k]));
        lemma_lowered_plain(ws[k]);
    }
    let t = join_words(lw, sep);
    assert(apply_rule(rule, name) == t);
    lemma_split_join(Seq::empty(), lw, sep, Seq::empty());
    assert(Seq::<char>::empty() + t =~= t);
    assert(Seq::<Seq<char>>::empty() + lw =~= lw);
    assert(split_words(t) == lw);
    assert(lw.map_values(|w: Seq<char>| lowered(w)) =~= lw);
}

/// A word of a screaming-case name: not empty, all ASCII upper-case letters.
pub open spec fn shouting_word(w: Seq<char>) -> bool {
    &&& w.len() > 0
    &&& forall|k: int| 0 <= k < w.len() ==> is_ascii_upper(#[trigger] w[k])
}

proof fn lemma_split_upper_run(s: Seq<char>, i: int, w: Seq<char>, words: Seq<Seq<char>>, cur: Seq<char>)
    requires
        0 <= i,
        i + w.len() <= s.len(),
        s.subrange(i, i + w.len()) == w,
        forall|k: int| 0 <= k < w.len() ==> is_ascii_upper(#[trigger] w[k]),
        forall|k: int| 0 <= k < s.len() ==> !lower(#[trigger] s[k]),
        all_upper(cur),
    ensures
        split_from(s, i, words, cur) == split_from(s, i + w.len(), words, cur + w),
    decreases w.len(),
{
    if w.len() == 0 {
        assert(cur + w =~= cur);
    } else {
        assert(s[i] == w[0]);
        assert(is_ascii_upper(w[0]));
        assert(upper(w[0]));
        if i + 1 < s.len() {
            assert(!lower(s[i + 1]));
        }
        assert(!starts_word(s, i, cur));
        let w2 = w.drop_first();
        assert(s.subrange(i + 1, i + 1 + w2.len()) =~= w2);
        assert forall|k: int| 0 <= k < w2.len() implies is_ascii_upper(#[trigger] w2[k]) by {
            assert(w2[k] == w[k + 1]);
        }
        assert forall|k: int| 0 <= k < cur.push(w[0]).len() implies upper(#[trigger] cur.push(w[0])[k]) by {
            if k < cur.len() {
                assert(cur.push(w[0])[k] == cur[k]);
            }
        }
        lemma_split_upper_run(s, i + 1, w2, words, cur.push(w[0]));
        assert(cur.push(w[0]) + w2 =~= cur + w);
    }
}

proof fn lemma_split_join_upper(p: Seq<char>, ws: Seq<Seq<char>>, sep: char, words: Seq<Seq<char>>)
    requires
        is_separator(sep),
        forall|k: int| 0 <= k < ws.len() ==> shouting_word(#[trigger] ws[k]),
        forall|k: int|
            0 <= k < (p + join_words(ws, sep)).len() ==> !lower(#[trigger] (p + join_words(ws, sep))[k]),
    ensures
        split_from(p + join_words(ws, sep), p.len() as int, words, Seq::empty()) == words + ws,
    decreases ws.len(),
{
    let s = p + join_words(ws, sep);
    if ws.len() == 0 {
        assert(words + ws =~= words);
    } else if ws.len() == 1 {
        let w = ws[0];
        assert(shouting_word(w));
        assert(s.subrange(p.len() as int, (p.len() + w.len()) as int) =~= w);
        lemma_split_upper_run(s, p.len() as int, w, words, Seq::empty());
        assert(Seq::<char>::empty() + w =~= w);
        assert(words + ws =~= words.push(w));
    } else {
        lemma_join_front(ws, sep);
        let w = ws[0];
        assert(shouting_word(w));
        let rest = ws.drop_first();
        let p2 = p + w + seq![sep];
        assert(s =~= p2 + join_words(rest, sep));
        assert(s.subrange(p.len() as int, (p.len() + w.len()) as int) =~= w);
        lemma_split_upper_run(s, p.len() as int, w, words, Seq::empty());
        assert(Seq::<char>::empty() + w =~= w);
        assert(s[(p.len() + w.len()) as int] == sep);
        assert forall|k: int| 0 <= k < rest.len() implies shouting_word(#[trigger] rest[k]) by {
            assert(rest[k] == ws[k + 1]);
        }
        lemma_split_join_upper(p2, rest, sep, words.push(w));
        assert(words.push(w) + rest =~= words + ws);
    }
}

proof fn lemma_join_chars(ws: Seq<Seq<char>>, sep: char, k: int)
    requires
        0 <= k < join_words(ws, sep).len(),
    ensures
        join_words(ws, sep)[k] == sep || exists|j: int, m: int|
            0 <= j < ws.len() && 0 <= m < ws[j].len() && join_words(ws, sep)[k] == #[trigger] ws[j][m],
    decreases ws.len(),
{
    if ws.len() == 1 {
        assert(join_words(ws, sep)[k] == ws[0][k]);
    } else if ws.len() > 1 {
        let front = join_words(ws.drop_last(), sep);
        if k < front.len() {
            lemma_join_chars(ws.drop_last(), sep, k);
            if join_words(ws, sep)[k] != sep {
                let (j, m) = choose|j: int, m: int|
                    0 <= j < ws.drop_last().len() && 0 <= m < ws.drop_last()[j].len() && front[k]
                        == #[trigger] ws.drop_last()[j][m];
                assert(ws[j][m] == ws.drop_last()[j][m]);
            }
        } else if k > front.len() {
            let m = k - front.len() - 1;
            assert(join_words(ws, sep)[k] == ws.last()[m]);
            assert(ws[ws.len() - 1][m] == ws.last()[m]);
        }
    }
}

proof fn lemma_uppered_shouting(w: Seq<char>)
    requires
        w.len() > 0,
        all_ascii(w),
        letters_and_separators(w),
        forall|k: int| 0 <= k < w.len() ==> !is_separator(#[trigger] w[k]),
    ensures
        shouting_word(uppered(w)),
        all_ascii(uppered(w)),
        uppered(uppered(w)) == uppered(w),
{
    let t = w.map_values(|c: char| ascii_upper(c));
    assert forall|k: int| 0 <= k < t.len() implies is_ascii_upper(#[trigger] t[k]) && is_ascii_char(
        t[k],
    ) by {
        assert(t[k] == ascii_upper(w[k]));
        assert(is_ascii_upper(w[k]) || is_ascii_lower(w[k]));
    }
    assert(t.map_values(|c: char| ascii_upper(c)) =~= t);
}

/// Screaming-snake-casing (or screaming-kebab-casing) a name made of ASCII
/// letters, `_` and `-` twice gives what doing it once gives.
pub proof fn lemma_screaming_idempotent(rule: RenameRule, name: Seq<char>)
    requires
        rule == RenameRule::ScreamingSnakeCase || rule == RenameRule::ScreamingKebabCase,
        all_ascii(name),
        letters_and_separators(name),
    ensures
        apply_rule(rule, apply_rule(rule, name)) == apply_rule(rule, name),
{
    let sep = if rule == RenameRule::ScreamingSnakeCase {
        '_'
    } else {
        '-'
    };
    let ws = split_words(name);
    lemma_split_from_words(name, 0, Seq::empty(), Seq::empty());
    let uw = ws.map_values(|w: Seq<char>| uppered(w));
    assert forall|k: int| 0 <= k < uw.len() implies shouting_word(#[trigger] uw[k]) && uppered(uw[k])
        == uw[k] by {
        assert(split_word_ok(name, ws[k]));
        lemma_uppered_shouting(ws[k]);
    }
    let t = join_words(uw, sep);
    assert(apply_rule(rule, name) == t);
    assert(Seq::<char>::empty() + t =~= t);
    assert forall|k: int| 0 <= k < t.len() implies !lower(#[trigger] t[k]) by {
        lemma_join_chars(uw, sep, k);
        if t[k] != sep {
            let (j, m) = choose|j: int, m: int|
                0 <= j < uw.len() && 0 <= m < uw[j].len() && t[k] == #[trigger] uw[j][m];
            assert(shouting_word(uw[j]));
            assert(is_ascii_upper(uw[j][m]));
        }
    }
    lemma_split_join_upper(Seq::empty(), uw, sep, Seq::empty());
    assert(Seq::<Seq<char>>::empty() + uw =~= uw);
    assert(split_words(t) == uw);
    assert(uw.map_values(|w: Seq<char>| uppered(w)) =~= uw);
}

proof fn lemma_lower_each_ascii(s: Seq<char>)
    requires
        all_ascii(s),
    ensures
        lower_each(s) == s.map_values(|c: char| ascii_lower(c)),
    decreases s.len(),
{
    if s.len() > 0 {
        let d = s.drop_last();
        assert(all_ascii(d)) by {
            assert forall|k: int| 0 <= k < d.len() implies is_ascii_char(#[trigger] d[k]) by {
                assert(d[k] == s[k]);
            }
        }
        lemma_lower_each_ascii(d);
        assert(is_ascii_char(s.last()));
        assert(d.map_values(|c: char| ascii_lower(c)) + seq![ascii_lower(s.last())] =~= s.map_values(
            |c: char| ascii_lower(c),
        ));
    } else {
        assert(s.map_values(|c: char| ascii_lower(c)) =~= Seq::<char>::empty());
    }
}

/// A capitalized word: an upper-case ASCII letter, then lower-case ones.
pub open spec fn capital_word(w: Seq<char>) -> bool {
    &&& w.len() >= 1
    &&& is_ascii_upper(w[0])
    &&& forall|k: int| 1 <= k < w.len() ==> is_ascii_lower(#[trigger] w[k])
}

pub open spec fn ascii_letters(w: Seq<char>) -> bool {
    forall|k: int| 0 <= k < w.len() ==> is_ascii_upper(#[trigger] w[k]) || is_ascii_lower(w[k])
}

/// No two neighbouring words both have a single letter.
pub open spec fn no_adjacent_singles(ws: Seq<Seq<char>>) -> bool {
    forall|k: int| 0 <= k && k + 1 < ws.len() ==> #[trigger] ws[k].len() >= 2 || ws[k + 1].len() >= 2
}

proof fn lemma_capitalized_ascii(w: Seq<char>)
    requires
        w.len() >= 1,
        ascii_letters(w),
    ensures
        capital_word(capitalized(w)),
        capitalized(w).len() == w.len(),
        capitalized(capitalized(w)) == capitalized(w),
{
    assert(all_ascii(w)) by {
        assert forall|k: int| 0 <= k < w.len() implies is_ascii_char(#[trigger] w[k]) by {
            assert(is_ascii_upper(w[k]) || is_ascii_lower(w[k]));
        }
    }
    let rest = w.drop_first();
    assert(all_ascii(rest)) by {
        assert forall|k: int| 0 <= k < rest.len() implies is_ascii_char(#[trigger] rest[k]) by {
            assert(rest[k] == w[k + 1]);
        }
    }
    lemma_lower_each_ascii(rest);
    assert(is_ascii_upper(w[0]) || is_ascii_lower(w[0]));
    let c = capitalized(w);
    let lr = rest.map_values(|x: char| ascii_lower(x));
    assert(c == seq![ascii_upper(w[0])] + lr);
    assert forall|k: int| 1 <= k < c.len() implies is_ascii_lower(#[trigger] c[k]) by {
        assert(c[k] == lr[k - 1]);
        assert(lr[k - 1] == ascii_lower(rest[k - 1]));
        assert(rest[k - 1] == w[k]);
        assert(is_ascii_upper(w[k]) || is_ascii_lower(w[k]));
    }
    assert(ascii_letters(c)) by {
        assert forall|k: int| 0 <= k < c.len() implies is_ascii_upper(#[trigger] c[k])
            || is_ascii_lower(c[k]) by {
            if k > 0 {
                assert(is_ascii_lower(c[k]));
            }
        }
    }
    let crest = c.drop_first();
    assert(crest =~= lr);
    assert(all_ascii(lr)) by {
        assert forall|k: int| 0 <= k < lr.len() implies is_ascii_char(#[trigger] lr[k]) by {
            assert(is_ascii_lower(c[k + 1]));
        }
    }
    lemma_lower_each_ascii(lr);
    assert(is_ascii_char(c[0]));
    assert(lr.map_values(|x: char| ascii_lower(x)) =~= lr) by {
        assert forall|k: int| 0 <= k < lr.len() implies ascii_lower(lr[k]) == lr[k] by {
            assert(is_ascii_lower(c[k + 1]));
        }
    }
}

proof fn lemma_concat_front(ws: Seq<Seq<char>>)
    requires
        ws.len() >= 1,
    ensures
        concat_words(ws) == ws[0] + concat_words(ws.drop_first()),
    decreases ws.len(),
{
    if ws.len() == 1 {
        assert(ws.drop_last() =~= Seq::<Seq<char>>::empty());
        assert(ws.drop_first() =~= Seq::<Seq<char>>::empty());
        assert(Seq::<char>::empty() + ws[0] =~= ws[0] + Seq::<char>::empty());
    } else {
        lemma_concat_front(ws.drop_last());
        assert(ws.drop_last().drop_first() =~= ws.drop_first().drop_last());
        assert(ws.drop_first().last() == ws.last());
        let c = concat_words(ws.drop_first().drop_last());
        assert(ws[0] + c + ws.last() =~= ws[0] + (c + ws.last()));
    }
}

proof fn lemma_split_capitals(p: Seq<char>, ws: Seq<Seq<char>>, words: Seq<Seq<char>>, cur: Seq<char>)
    requires
        forall|k: int| 0 <= k < ws.len() ==> capital_word(#[trigger] ws[k]),
        no_adjacent_singles(ws),
        cur.len() == 0 || !all_upper(cur) || ws.len() == 0 || ws[0].len() >= 2,
    ensures
        split_from(p + concat_words(ws), p.len() as int, words, cur) == (if cur.len() > 0 {
            words.push(cur)
        } else {
            words
        }) + ws,
    decreases ws.len(),
{
    let s = p + concat_words(ws);
    if ws.len() == 0 {
        assert(s =~= p);
        assert(words.push(cur) + ws =~= words.push(cur));
        assert(words + ws =~= words);
    } else {
        lemma_concat_front(ws);
        let w = ws[0];
        let rest = ws.drop_first();
        assert(capital_word(w));
        assert(s =~= (p + w) + concat_words(rest));
        let i = p.len() as int;
        assert(s[i] == w[0]);
        assert(upper(w[0]));
        let words2 = if cur.len() > 0 {
            words.push(cur)
        } else {
            words
        };
        assert(split_from(s, i, words, cur) == split_from(s, i + 1, words2, seq![w[0]])) by {
            if cur.len() > 0 {
                if all_upper(cur) {
                    assert(s[i + 1] == w[1]);
                    assert(is_ascii_lower(w[1]));
                }
                assert(starts_word(s, i, cur));
            } else {
                assert(!starts_word(s, i, cur));
                assert(cur.push(w[0]) =~= seq![w[0]]);
            }
        }
        let tail = w.drop_first();
        assert(s.subrange(i + 1, i + 1 + tail.len()) =~= tail);
        assert forall|k: int| 0 <= k < tail.len() implies !is_separator(#[trigger] tail[k]) && !upper(
            tail[k],
        ) by {
            assert(tail[k] == w[k + 1]);
            assert(is_ascii_lower(w[k + 1]));
        }
        lemma_split_plain_run(s, i + 1, tail, words2, seq![w[0]]);
        assert(seq![w[0]] + tail =~= w);
        if w.len() >= 2 {
            assert(!all_upper(w)) by {
                assert(is_ascii_lower(w[1]));
                assert(!upper(w[1]));
            }
        } else if rest.len() > 0 {
            assert(ws[0].len() >= 2 || ws[1].len() >= 2);
            assert(rest[0] == ws[1]);
        }
        assert forall|k: int| 0 <= k < rest.len() implies capital_word(#[trigger] rest[k]) by {
            assert(rest[k] == ws[k + 1]);
        }
        assert forall|k: int| 0 <= k && k + 1 < rest.len() implies #[trigger] rest[k].len() >= 2
            || rest[k + 1].len() >= 2 by {
            assert(rest[k] == ws[k + 1]);
            assert(rest[k + 1] == ws[k + 2]);
            assert(ws[k + 1].len() >= 2 || ws[k + 2].len() >= 2);
        }
        lemma_split_capitals(p + w, rest, words2, w);
        assert(words2.push(w) + rest =~= words2 + ws);
    }
}

/// Pascal-casing a name made of ASCII letters, `_` and `-`, with no two
/// neighbouring one-letter words, twice gives what doing it once gives.
pub proof fn lemma_pascal_idempotent(name: Seq<char>)
    requires
        all_ascii(name),
        letters_and_separators(name),
        no_adjacent_singles(split_words(name)),
    ensures
        apply_rule(RenameRule::PascalCase, apply_rule(RenameRule::PascalCase, name)) == apply_rule(
            RenameRule::PascalCase,
            name,
        ),
{
    let ws = split_words(name);
    lemma_split_from_words(name, 0, Seq::empty(), Seq::empty());
    let cw = ws.map_values(|w: Seq<char>| capitalized(w));
    assert forall|k: int| 0 <= k < cw.len() implies capital_word(#[trigger] cw[k]) && capitalized(
        cw[k],
    ) == cw[k] by {
        assert(split_word_ok(name, ws[k]));
        assert(ascii_letters(ws[k])) by {
            assert forall|j: int| 0 <= j < ws[k].len() implies is_ascii_upper(#[trigger] ws[k][j])
                || is_ascii_lower(ws[k][j]) by {
                assert(!is_separator(ws[k][j]));
            }
        }
        lemma_capitalized_ascii(ws[k]);
    }
    assert forall|k: int| 0 <= k && k + 1 < cw.len() implies #[trigger] cw[k].len() >= 2
        || cw[k + 1].len() >= 2 by {
        assert(split_word_ok(name, ws[k]));
        assert(split_word_ok(name, ws[k + 1]));
        assert(ascii_letters(ws[k])) by {
            assert forall|j: int| 0 <= j < ws[k].len() implies is_ascii_upper(#[trigger] ws[k][j])
                || is_ascii_lower(ws[k][j]) by {
                assert(!is_separator(ws[k][j]));
            }
        }
        assert(ascii_letters(ws[k + 1])) by {
            assert forall|j: int| 0 <= j < ws[k + 1].len() implies is_ascii_upper(
                #[trigger] ws[k + 1][j],
            ) || is_ascii_lower(ws[k + 1][j]) by {
                assert(!is_separator(ws[k + 1][j]));
            }
        }
        lemma_capitalized_ascii(ws[k]);
        lemma_capitalized_ascii(ws[k + 1]);
        assert(ws[k].len() >= 2 || ws[k + 1].len() >= 2);
    }
    let t = concat_words(cw);
    assert(apply_rule(RenameRule::PascalCase, name) == t);
    lemma_split_capitals(Seq::empty(), cw, Seq::empty(), Seq::empty());
    assert(Seq::<char>::empty() + t =~= t);
    assert(Seq::<Seq<char>>::empty() + cw =~= cw);
    assert(split_words(t) == cw);
    assert(cw.map_values(|w: Seq<char>| capitalized(w)) =~= cw);
}

/// Camel-casing a name made of ASCII letters, `_` and `-`, with no two
/// neighbouring one-letter words after the first word, twice gives what
/// doing it once gives.
pub proof fn lemma_camel_idempotent(name: Seq<char>)
    requires
        all_ascii(name),
        letters_and_separators(name),
        no_adjacent_singles(split_words(name).drop_first()),
    ensures
        apply_rule(RenameRule::CamelCase, apply_rule(RenameRule::CamelCase, name)) == apply_rule(
            RenameRule::CamelCase,
            name,
        ),
{
    let ws = split_words(name);
    lemma_split_from_words(name, 0, Seq::empty(), Seq::empty());
    let cw = camel_words(ws);
    assert forall|k: int| 0 <= k < ws.len() implies ascii_letters(#[trigger] ws[k]) && all_ascii(
        ws[k],
    ) && ws[k].len() >= 1 by {
        assert(split_word_ok(name, ws[k]));
        assert forall|j: int| 0 <= j < ws[k].len() implies is_ascii_upper(#[trigger] ws[k][j])
            || is_ascii_lower(ws[k][j]) by {
            assert(!is_separator(ws[k][j]));
        }
    }
    let t = concat_words(cw);
    assert(apply_rule(RenameRule::CamelCase, name) == t);
    if ws.len() == 0 {
        assert(cw =~= Seq::<Seq<char>>::empty());
        assert(t =~= Seq::<char>::empty());
        assert(split_words(t) =~= Seq::<Seq<char>>::empty());
        assert(camel_words(split_words(t)) =~= Seq::<Seq<char>>::empty());
    } else {
        let w0 = ws[0];
        assert(split_word_ok(name, w0));
        lemma_lowered_plain(w0);
        let lw = cw[0];
        assert(lw == lowered(w0));
        assert(lw == w0.map_values(|c: char| ascii_lower(c)));
        assert forall|j: int| 0 <= j < lw.len() implies is_ascii_lower(#[trigger] lw[j]) by {
            assert(lw[j] == ascii_lower(w0[j]));
            assert(is_ascii_upper(w0[j]) || is_ascii_lower(w0[j]));
        }
        let rest = cw.drop_first();
        assert forall|k: int| 0 <= k < rest.len() implies capital_word(#[trigger] rest[k])
            && capitalized(rest[k]) == rest[k] by {
            assert(rest[k] == capitalized(ws[k + 1]));
            lemma_capitalized_ascii(ws[k + 1]);
        }
        assert forall|k: int| 0 <= k && k + 1 < rest.len() implies #[trigger] rest[k].len() >= 2
            || rest[k + 1].len() >= 2 by {
            lemma_capitalized_ascii(ws[k + 1]);
            lemma_capitalized_ascii(ws[k + 2]);
            assert(rest[k] == capitalized(ws[k + 1]));
            assert(rest[k + 1] == capitalized(ws[k + 2]));
            assert(ws.drop_first()[k] == ws[k + 1]);
            assert(ws.drop_first()[k + 1] == ws[k + 2]);
        }
        lemma_concat_front(cw);
        assert(t =~= lw + concat_words(rest));
        assert(t.subrange(0, lw.len() as int) =~= lw);
        assert forall|k: int| 0 <= k < lw.len() implies !is_separator(#[trigger] lw[k]) && !upper(
            lw[k],
        ) by {
            assert(is_ascii_lower(lw[k]));
        }
        lemma_split_plain_run(t, 0, lw, Seq::empty(), Seq::empty());
        assert(Seq::<char>::empty() + lw =~= lw);
        assert(!all_upper(lw)) by {
            assert(is_ascii_lower(lw[0]));
            assert(!upper(lw[0]));
        }
        lemma_split_capitals(lw, rest, Seq::empty(), lw);
        assert(Seq::<Seq<char>>::empty().push(lw) + rest =~= cw);
        assert(split_words(t) == cw);
        assert(camel_words(cw) =~= cw) by {
            assert forall|k: int| 0 <= k < cw.len() implies camel_words(cw)[k] == cw[k] by {
                if k > 0 {
                    assert(cw[k] == rest[k - 1]);
                }
            }
        }
    }
}

} // verus!
