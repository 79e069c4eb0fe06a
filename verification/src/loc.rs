//! Code-line counting of one file and the extension bucket a file falls in.
use vstd::prelude::*;
use vstd::string::*;

verus! {

/// A programming language that tokei recognises, by its display name
/// (`tokei::LanguageType::name`, such as `"Rust"` or `"C++"`).
#[derive(Clone, Debug, PartialEq, Eq)]
pub struct Language {
    pub name: String,
}

/// The number of newline bytes (`b'\n'`) in `bytes`.
pub open spec fn newline_count(bytes: Seq<u8>) -> nat
    decreases bytes.len(),
{
    if bytes.len() == 0 {
        0
    } else {
        newline_count(bytes.drop_last()) + if bytes.last() == 10u8 { 1nat } else { 0nat }
    }
}

/// What tokei's `LanguageType::parse_from_slice(text, &Config::default()).code` gives
/// for the language whose name is `language` (matched as `LanguageType::from_str`
/// matches, ignoring case), or `None` where tokei has no language of that name.
pub uninterp spec fn tokei_code_count(language: Seq<char>, text: Seq<u8>) -> Option<u64>;

/// The code lines of a file in `lang`: tokei's code count where the language is
/// known to tokei, otherwise the raw newline count.
pub open spec fn code_line_count(lang: Option<Seq<char>>, bytes: Seq<u8>) -> nat {
    match lang {
        Some(name) => match tokei_code_count(name, bytes) {
            Some(n) => n as nat,
            None => newline_count(bytes),
        },
        None => newline_count(bytes),
    }
}

/// The display name of the language that tokei's `LanguageType::from_path` decides
/// for a path by its file name and extension alone: the language whose list of file
/// names holds the file name (in lower case, such as `makefile` or `dockerfile`), else,
/// where the file name has an extension, the language of that extension (in lower
/// case); `None` where neither decides.
pub uninterp spec fn tokei_path_language(path: Seq<char>) -> Option<Seq<char>>;

/// The path's file name has an extension (as `Path::extension` finds one).
pub open spec fn path_has_extension(path: Seq<char>) -> bool {
    file_name_of(path) matches Some(name) && extension_in(name) is Some
}

/// The language names of an optional language.
pub open spec fn language_name_of(lang: Option<Language>) -> Option<Seq<char>> {
    match lang {
        Some(l) => Some(l.name@),
        None => None,
    }
}

/// Calls `tokei::LanguageType::from_path(path, &Config::default())` and gives the
/// display name (`LanguageType::name`) of the language it finds. tokei first looks the
/// lower-cased file name up in its table of file names, then the lower-cased
/// extension, and returns where either decides: that language is named
/// `tokei_path_language`, and for a path with an extension it is the whole answer.
/// Only for a path without an extension whose file name is in no table does tokei
/// open the file at that path to read a shebang line; which language that finds
/// depends on what is on disk, and nothing is claimed of it. Every name it gives is
/// one that `LanguageType::from_str` maps back to its language (names are distinct
/// ignoring case), so tokei counts code lines in it.
#[verifier::external_body]
fn tokei_language_of(path: &str) -> (r: Option<String>)
    ensures
        r is None ==> tokei_path_language(path@) is None,
        r matches Some(m) ==> (tokei_path_language(path@) is None || tokei_path_language(path@)
            == Some(m@)),
        path_has_extension(path@) ==> match r {
            Some(n) => tokei_path_language(path@) == Some(n@),
            None => tokei_path_language(path@) is None,
        },
        r matches Some(n) ==> forall|text: Seq<u8>| #[trigger] tokei_code_count(n@, text) is Some,
{
    tokei::LanguageType::from_path(std::path::Path::new(path), &tokei::Config::default()).map(
        |l| l.name().to_string(),
    )
}

/// Calls `tokei::LanguageType::parse_from_slice(text, &Config::default())` for the
/// language named `language` (found by `LanguageType::from_str`) and gives the
/// `code` count of the result; `None` where no language has that name. The count
/// depends on the language and the bytes alone, and is named `tokei_code_count`.
#[verifier::external_body]
fn tokei_code_lines(language: &str, text: &[u8]) -> (r: Option<u64>)
    ensures
        r == tokei_code_count(language@, text@),
{
    language.parse::<tokei::LanguageType>().ok().map(
        |l| l.parse_from_slice(text, &tokei::Config::default()).code as u64,
    )
}

/// The language tokei assigns to `path` (by file name, by extension, or, for a
/// path without extension, by the shebang line of the file at that path).
/// `None` means tokei does not classify it.
pub fn language_for(path: &str) -> (lang: Option<Language>)
    ensures
        tokei_path_language(path@) matches Some(n) ==> language_name_of(lang) == Some(n),
        path_has_extension(path@) ==> language_name_of(lang) == tokei_path_language(path@),
        lang matches Some(l) ==> forall|text: Seq<u8>|
            #[trigger] tokei_code_count(l.name@, text) is Some,
{
    match tokei_language_of(path) {
        Some(name) => Some(Language { name }),
        None => None,
    }
}

/// The number of newline bytes in `bytes`.
pub fn count_newlines(bytes: &[u8]) -> (n: u64)
    ensures
        n == newline_count(bytes@),
{
    let mut n: u64 = 0;
    let mut i: usize = 0;
    while i < bytes.len()
        invariant
            i <= bytes.len(),
            n <= i,
            n == newline_count(bytes@.take(i as int)),
        decreases bytes.len() - i,
    {
        assert(bytes@.take(i + 1).drop_last() =~= bytes@.take(i as int));
        if bytes[i] == 10u8 {
            n = n + 1;
        }
        i = i + 1;
    }
    assert(bytes@.take(i as int) =~= bytes@);
    n
}

/// The code lines of a file, given what tokei counted for it (`counted`, `None` where
/// tokei could not count it): tokei's count, or else the raw newline count.
pub fn code_lines_or_newlines(counted: Option<u64>, bytes: &[u8]) -> (n: u64)
    ensures
        n == match counted {
            Some(c) => c as nat,
            None => newline_count(bytes@),
        },
{
    match counted {
        Some(c) => c,
        None => count_newlines(bytes),
    }
}

/// Counts code lines with a language resolved beforehand: tokei's code lines (blank
/// and comment lines are skipped) where the language is known, else raw newlines.
pub fn count_code_lines_with_lang(lang: Option<Language>, bytes: &[u8]) -> (n: u64)
    ensures
        n == code_line_count(
            match lang {
                Some(l) => Some(l.name@),
                None => None,
            },
            bytes@,
        ),
{
    match lang {
        Some(l) => {
            let counted = tokei_code_lines(l.name.as_str(), bytes);
            code_lines_or_newlines(counted, bytes)
        },
        None => count_newlines(bytes),
    }
}

/// Counts the code lines of the file at `path` whose content is `bytes`, with the
/// language tokei assigns to the path.
pub fn count_code_lines(path: &str, bytes: &[u8]) -> (n: u64)
    ensures
        tokei_path_language(path@) is Some ==> n == code_line_count(
            tokei_path_language(path@),
            bytes@,
        ),
        path_has_extension(path@) ==> n == code_line_count(tokei_path_language(path@), bytes@),
        n == newline_count(bytes@) || exists|name: Seq<char>|
            tokei_code_count(name, bytes@) == Some(n),
{
    let lang = language_for(path);
    count_code_lines_with_lang(lang, bytes)
}

/// A path whose file name or extension tokei knows is always classified, and two
/// calls of `language_for` on it agree: both give the language tokei assigns to that
/// name (a `Makefile` is Makefile, whether or not it has an extension).
pub proof fn lemma_language_by_name_is_settled(
    path: Seq<char>,
    l1: Option<Language>,
    l2: Option<Language>,
)
    requires
        tokei_path_language(path) is Some,
        tokei_path_language(path) matches Some(n) ==> language_name_of(l1) == Some(n),
        tokei_path_language(path) matches Some(n) ==> language_name_of(l2) == Some(n),
    ensures
        l1 is Some,
        l2 is Some,
        language_name_of(l1) == language_name_of(l2),
        language_name_of(l1) == tokei_path_language(path),
{
}

/// Files that tokei places by file name or extension in one language, and that hold
/// the same bytes, count the same code lines wherever they lie (a `Makefile` at the
/// top of the tree and one in a subdirectory, or `a.rs` and `b/c.rs`).
pub proof fn lemma_same_language_same_count(
    p1: Seq<char>,
    p2: Seq<char>,
    bytes: Seq<u8>,
    n1: u64,
    n2: u64,
)
    requires
        tokei_path_language(p1) is Some,
        tokei_path_language(p1) == tokei_path_language(p2),
        tokei_path_language(p1) is Some ==> n1 == code_line_count(tokei_path_language(p1), bytes),
        tokei_path_language(p2) is Some ==> n2 == code_line_count(tokei_path_language(p2), bytes),
    ensures
        n1 == n2,
{
}

/// A file with an extension that tokei does not know, and whose file name it does not
/// know either, counts its raw newlines: blank and comment-like lines included.
pub proof fn lemma_unknown_extension_counts_newlines(path: Seq<char>, bytes: Seq<u8>, n: u64)
    requires
        path_has_extension(path),
        tokei_path_language(path) is None,
        path_has_extension(path) ==> n == code_line_count(tokei_path_language(path), bytes),
    ensures
        n == newline_count(bytes),
{
}

/// Where tokei knows the language of a path by its name, the count is tokei's code
/// count for the bytes in that language: no other language's rules are applied.
pub proof fn lemma_named_language_decides_count(path: Seq<char>, bytes: Seq<u8>, n: u64)
    requires
        tokei_path_language(path) is Some,
        tokei_path_language(path) is Some ==> n == code_line_count(
            tokei_path_language(path),
            bytes,
        ),
    ensures
        tokei_path_language(path) matches Some(name) && match tokei_code_count(name, bytes) {
            Some(c) => n == c,
            None => n == newline_count(bytes),
        },
{
}

/// The path ends in a separator, or in a `.` component (`"."` or `".../."`), which
/// `Path::components` drops.
pub open spec fn ends_in_droppable(s: Seq<char>) -> bool {
    s.len() > 0 && (s.last() == '/' || (s.last() == '.' && (s.len() == 1 || s[s.len() - 2] == '/')))
}

/// The path without trailing separators and `.` components.
pub open spec fn trimmed(s: Seq<char>) -> Seq<char>
    decreases s.len(),
{
    if ends_in_droppable(s) {
        trimmed(s.drop_last())
    } else {
        s
    }
}

/// The index of the last `c` in `s`, or -1.
pub open spec fn last_index_of(s: Seq<char>, c: char) -> int
    decreases s.len(),
{
    if s.len() == 0 {
        -1
    } else if s.last() == c {
        s.len() - 1
    } else {
        last_index_of(s.drop_last(), c)
    }
}

/// `Path::file_name` of a `/`-separated path: its last normal component, or `None`
/// where the path is empty, is the root, ends in `..`, or is only `.`.
pub open spec fn file_name_of(s: Seq<char>) -> Option<Seq<char>> {
    let t = trimmed(s);
    if t.len() == 0 {
        None
    } else {
        let name = t.subrange(last_index_of(t, '/') + 1, t.len() as int);
        if name == seq!['.', '.'] {
            None
        } else {
            Some(name)
        }
    }
}

/// `Path::extension` of a file name: what follows its last `.`, unless it has no
/// `.` or its only `.` leads the name (as in `.gitignore`).
pub open spec fn extension_in(name: Seq<char>) -> Option<Seq<char>> {
    let k = last_index_of(name, '.');
    if k <= 0 {
        None
    } else {
        Some(name.subrange(k + 1, name.len() as int))
    }
}

/// `s` with the ASCII letters `A`..=`Z` made lower case (as `str::to_ascii_lowercase`).
pub open spec fn ascii_lower(s: Seq<char>) -> Seq<char> {
    s.map_values(|c: char| lower_char(c))
}

/// `c` made lower case where it is an ASCII letter `A`..=`Z`.
pub open spec fn lower_char(c: char) -> char {
    if 'A' <= c && c <= 'Z' {
        ((c as u32) + 32) as char
    } else {
        c
    }
}

/// The bucket of a file without extension.
pub open spec fn no_ext_label() -> Seq<char> {
    seq!['(', 'n', 'o', ' ', 'e', 'x', 't', ')']
}

/// The bucket a file at `path` is counted in: its extension in lower case, or
/// `(no ext)`.
pub open spec fn extension_bucket(path: Seq<char>) -> Seq<char> {
    match file_name_of(path) {
        Some(name) => match extension_in(name) {
            Some(e) => ascii_lower(e),
            None => no_ext_label(),
        },
        None => no_ext_label(),
    }
}

/// Calls `str::to_ascii_lowercase`, which maps `A`..=`Z` to `a`..=`z` and leaves
/// every other character as it is.
#[verifier::external_body]
fn to_ascii_lowercase(s: &str) -> (r: String)
    ensures
        r@ == ascii_lower(s@),
{
    s.to_ascii_lowercase()
}

fn droppable_end(path: &str, end: usize) -> (r: bool)
    requires
        end <= path@.len(),
    ensures
        r == ends_in_droppable(path@.take(end as int)),
{
    if end == 0 {
        return false;
    }
    let c = path.get_char(end - 1);
    if c == '/' {
        true
    } else if c == '.' {
        end == 1 || path.get_char(end - 2) == '/'
    } else {
        false
    }
}

/// The position just after the last `c` in `path[..end]`, or 0.
fn after_last(path: &str, c: char, from: usize, end: usize) -> (k: usize)
    requires
        from <= end <= path@.len(),
    ensures
        from <= k <= end,
        k == from + last_index_of(path@.subrange(from as int, end as int), c) + 1,
{
    let mut k = end;
    while k > from && path.get_char(k - 1) != c
        invariant
            from <= k <= end <= path@.len(),
            last_index_of(path@.subrange(from as int, end as int), c) == last_index_of(
                path@.subrange(from as int, k as int),
                c,
            ),
        decreases k,
    {
        assert(path@.subrange(from as int, k as int).drop_last() =~= path@.subrange(
            from as int,
            k - 1,
        ));
        k = k - 1;
    }
    k
}

/// The extension of the file at `path`, in lower case, or `(no ext)` where it has
/// none.
pub fn extension_of(path: &str) -> (ext: String)
    ensures
        ext@ == extension_bucket(path@),
{
    let n = path.unicode_len();
    let mut end = n;
    assert(path@.take(n as int) =~= path@);
    while end > 0 && droppable_end(path, end)
        invariant
            end <= n == path@.len(),
            trimmed(path@) == trimmed(path@.take(end as int)),
        decreases end,
    {
        assert(path@.take(end as int).drop_last() =~= path@.take(end - 1));
        end = end - 1;
    }
    let ghost t = path@.take(end as int);
    assert(trimmed(path@) == t);
    proof {
        reveal_strlit("(no ext)");
    }
    if end == 0 {
        return String::from_str("(no ext)");
    }
    let start = after_last(path, '/', 0, end);
    assert(path@.subrange(0, end as int) =~= t);
    let ghost name = t.subrange(start as int, end as int);
    if end - start == 2 && path.get_char(start) == '.' && path.get_char(start + 1) == '.' {
        assert(name =~= seq!['.', '.']);
        return String::from_str("(no ext)");
    }
    assert(name != seq!['.', '.']) by {
        if name == seq!['.', '.'] {
            assert(name.len() == 2);
            assert(end - start == 2);
            assert(name[0] == t[start as int] && t[start as int] == path@[start as int]);
            assert(name[1] == t[start + 1] && t[start + 1] == path@[start + 1]);
        }
    }
    let dot = after_last(path, '.', start, end);
    assert(path@.subrange(start as int, end as int) =~= name);
    if dot - start <= 1 {
        return String::from_str("(no ext)");
    }
    let e = path.substring_char(dot, end);
    assert(e@ =~= name.subrange(dot - start, name.len() as int));
    to_ascii_lowercase(e)
}

/// A bucket holds no upper-case ASCII letter: files whose extensions differ only
/// in ASCII case share a bucket.
pub proof fn lemma_bucket_is_lower_case(path: Seq<char>)
    ensures
        forall|i: int|
            0 <= i < extension_bucket(path).len() ==> !('A' <= #[trigger] extension_bucket(path)[i]
                && extension_bucket(path)[i] <= 'Z'),
{
    let b = extension_bucket(path);
    assert forall|i: int| 0 <= i < b.len() implies !('A' <= #[trigger] b[i] && b[i] <= 'Z') by {
        match file_name_of(path) {
            Some(name) => match extension_in(name) {
                Some(e) => {
                    let c = e[i];
                    if 'A' <= c && c <= 'Z' {
                        assert((((c as u32) + 32) as char) as u32 == (c as u32) + 32);
                    }
                },
                None => {},
            },
            None => {},
        }
    }
}


proof fn lemma_lower_char_facts(c: char)
    ensures
        lower_char(c) == '/' <==> c == '/',
        lower_char(c) == '.' <==> c == '.',
        lower_char(lower_char(c)) == lower_char(c),
{
    if 'A' <= c && c <= 'Z' {
        assert((((c as u32) + 32) as char) as u32 == (c as u32) + 32);
    }
}

proof fn lemma_lower_droppable(s: Seq<char>)
    ensures
        ends_in_droppable(ascii_lower(s)) == ends_in_droppable(s),
{
    if s.len() > 0 {
        lemma_lower_char_facts(s.last());
        assert(ascii_lower(s).last() == lower_char(s.last()));
        if s.len() > 1 {
            lemma_lower_char_facts(s[s.len() - 2]);
            assert(ascii_lower(s)[s.len() - 2] == lower_char(s[s.len() - 2]));
        }
    }
}

proof fn lemma_lower_trimmed(s: Seq<char>)
    ensures
        trimmed(ascii_lower(s)) == ascii_lower(trimmed(s)),
    decreases s.len(),
{
    lemma_lower_droppable(s);
    if ends_in_droppable(s) {
        assert(ascii_lower(s).drop_last() =~= ascii_lower(s.drop_last()));
        lemma_lower_trimmed(s.drop_last());
    }
}

proof fn lemma_lower_last_index(s: Seq<char>, c: char)
    requires
        c == '/' || c == '.',
    ensures
        last_index_of(ascii_lower(s), c) == last_index_of(s, c),
    decreases s.len(),
{
    if s.len() > 0 {
        lemma_lower_char_facts(s.last());
        assert(ascii_lower(s).last() == lower_char(s.last()));
        assert(ascii_lower(s).drop_last() =~= ascii_lower(s.drop_last()));
        lemma_lower_last_index(s.drop_last(), c);
    }
}

proof fn lemma_lower_twice(s: Seq<char>)
    ensures
        ascii_lower(ascii_lower(s)) == ascii_lower(s),
{
    assert forall|i: int| 0 <= i < s.len() implies ascii_lower(ascii_lower(s))[i] == ascii_lower(
        s,
    )[i] by {
        lemma_lower_char_facts(s[i]);
    }
    assert(ascii_lower(ascii_lower(s)) =~= ascii_lower(s));
}

proof fn lemma_last_index_bounds(s: Seq<char>, c: char)
    ensures
        -1 <= last_index_of(s, c) < s.len(),
    decreases s.len(),
{
    if s.len() > 0 {
        lemma_last_index_bounds(s.drop_last(), c);
    }
}

/// The bucket of a path does not depend on the ASCII case of its letters: making
/// them lower case gives the same bucket.
pub proof fn lemma_bucket_ignores_ascii_case(path: Seq<char>)
    ensures
        extension_bucket(ascii_lower(path)) == extension_bucket(path),
{
    let lp = ascii_lower(path);
    let t = trimmed(path);
    lemma_lower_trimmed(path);
    let lt = trimmed(lp);
    assert(lt == ascii_lower(t));
    if t.len() > 0 {
        lemma_lower_last_index(t, '/');
        lemma_last_index_bounds(t, '/');
        let a = last_index_of(t, '/') + 1;
        let name = t.subrange(a, t.len() as int);
        let lname = lt.subrange(a, lt.len() as int);
        assert(lname =~= ascii_lower(name));
        if name == seq!['.', '.'] {
            lemma_lower_char_facts('.');
            assert(lname =~= seq!['.', '.']);
        } else if lname == seq!['.', '.'] {
            lemma_lower_char_facts(name[0]);
            lemma_lower_char_facts(name[1]);
            assert(lname[0] == lower_char(name[0]));
            assert(lname[1] == lower_char(name[1]));
            assert(name =~= seq!['.', '.']);
        }
        lemma_lower_last_index(name, '.');
        lemma_last_index_bounds(name, '.');
        let k = last_index_of(name, '.');
        if k > 0 {
            let e = name.subrange(k + 1, name.len() as int);
            assert(lname.subrange(k + 1, lname.len() as int) =~= ascii_lower(e));
            lemma_lower_twice(e);
        }
    }
}

/// Paths whose letters differ only in ASCII case (in particular, paths that differ
/// only in the case of their extension) share a bucket.
pub proof fn lemma_case_variants_share_a_bucket(p1: Seq<char>, p2: Seq<char>)
    requires
        ascii_lower(p1) == ascii_lower(p2),
    ensures
        extension_bucket(p1) == extension_bucket(p2),
{
    lemma_bucket_ignores_ascii_case(p1);
    lemma_bucket_ignores_ascii_case(p2);
}

} // verus!
