//! Selected tests as command lines of their test runners. Nothing is run
//! here: the lines are for a person or a script to run.
use vstd::prelude::*;

use crate::paths;
use crate::paths::directory;
use crate::text;
use crate::text::{cat, cat3, chars_of, insert_line, join_with, same};

verus! {

/// A selected test, ready to be shown.
#[derive(Debug, Clone)]
pub struct SelectedTest {
    pub file: String,
    /// Its chain of names; its definition's own name where it has none.
    pub name: Vec<String>,
    pub runner: String,
    pub lang: String,
    /// A name in the chain is computed, and the chain stops before it: a
    /// match by the whole name would miss the test.
    pub computed: bool,
}

/// What a [`SelectedTest`] says.
#[verifier::ext_equal]
pub struct SelectedView {
    pub file: Seq<char>,
    pub name: Seq<Seq<char>>,
    pub runner: Seq<char>,
    pub lang: Seq<char>,
    pub computed: bool,
}

impl View for SelectedTest {
    type V = SelectedView;

    open spec fn view(&self) -> SelectedView {
        SelectedView {
            file: self.file@,
            name: text::views(self.name@),
            runner: self.runner@,
            lang: self.lang@,
            computed: self.computed,
        }
    }
}

/// What a list of selected tests says.
pub open spec fn selected_views(v: Seq<SelectedTest>) -> Seq<SelectedView> {
    v.map_values(|t: SelectedTest| t@)
}

/// Is the character never special to a POSIX shell?
pub open spec fn is_bare(c: char) -> bool {
    ||| 'A' <= c <= 'Z'
    ||| 'a' <= c <= 'z'
    ||| '0' <= c <= '9'
    ||| c == '_'
    ||| c == '.'
    ||| c == '/'
    ||| c == ':'
    ||| c == '='
    ||| c == '@'
    ||| c == '^'
    ||| c == '-'
}

/// Can the text stand in a command line as it is?
pub open spec fn all_bare(s: Seq<char>) -> bool {
    s.len() > 0 && forall|i: int| 0 <= i < s.len() ==> is_bare(#[trigger] s[i])
}

/// A character within single quotes. An apostrophe ends the quotes, stands
/// behind a backslash, and begins them again.
pub open spec fn quoted_char(c: char) -> Seq<char> {
    if c == '\'' {
        seq!['\'', '\\', '\'', '\'']
    } else {
        seq![c]
    }
}

/// The characters of `s` within single quotes.
pub open spec fn quoted_chars(s: Seq<char>) -> Seq<char>
    decreases s.len(),
{
    if s.len() == 0 {
        Seq::empty()
    } else {
        quoted_chars(s.drop_last()) + quoted_char(s.last())
    }
}

/// `s` as one word of a shell command.
pub open spec fn quoted(s: Seq<char>) -> Seq<char> {
    if all_bare(s) {
        s
    } else {
        seq!['\''] + quoted_chars(s) + seq!['\'']
    }
}

/// The word that a shell reads from `s`; `within` says whether `s` begins
/// within single quotes. Within them every character but an apostrophe
/// stands for itself; outside, a backslash makes the next character stand
/// for itself.
pub open spec fn shell_word(s: Seq<char>, within: bool) -> Option<Seq<char>>
    decreases s.len(),
{
    if s.len() == 0 {
        if within {
            None
        } else {
            Some(Seq::empty())
        }
    } else if s[0] == '\'' {
        shell_word(s.skip(1), !within)
    } else if within || is_bare(s[0]) {
        match shell_word(s.skip(1), within) {
            Some(rest) => Some(seq![s[0]] + rest),
            None => None,
        }
    } else if s[0] == '\\' && s.len() >= 2 {
        match shell_word(s.skip(2), false) {
            Some(rest) => Some(seq![s[1]] + rest),
            None => None,
        }
    } else {
        None
    }
}

fn bare(c: char) -> (r: bool)
    ensures
        r == is_bare(c),
{
    ('A' <= c && c <= 'Z') || ('a' <= c && c <= 'z') || ('0' <= c && c <= '9') || c == '_' || c
        == '.' || c == '/' || c == ':' || c == '=' || c == '@' || c == '^' || c == '-'
}

/// `s` as one word of a shell command.
pub fn sh_quote(s: &str) -> (r: String)
    ensures
        r@ == quoted(s@),
{
    let sc = chars_of(s);
    let mut safe: bool = sc.len() > 0;
    let mut out: String = String::new();
    out.push('\'');
    let mut i: usize = 0;
    assert(s@.take(0) =~= Seq::empty());
    assert(out@ =~= seq!['\''] + quoted_chars(s@.take(0)));
    while i < sc.len()
        invariant
            i <= sc@.len(),
            sc@ == s@,
            out@ == seq!['\''] + quoted_chars(s@.take(i as int)),
            safe <==> (s@.len() > 0 && forall|j: int| 0 <= j < i ==> is_bare(#[trigger] s@[j])),
        decreases sc@.len() - i,
    {
        let c = sc[i];
        assert(s@.take(i + 1).drop_last() =~= s@.take(i as int));
        if !bare(c) {
            assert(!is_bare(s@[i as int]));
            safe = false;
        }
        if c == '\'' {
            out.push('\'');
            out.push('\\');
            out.push('\'');
            out.push('\'');
        } else {
            out.push(c);
        }
        assert(out@ =~= seq!['\''] + quoted_chars(s@.take(i + 1)));
        i = i + 1;
    }
    assert(s@.take(s@.len() as int) =~= s@);
    if safe {
        s.to_owned()
    } else {
        out.push('\'');
        assert(out@ =~= quoted(s@));
        out
    }
}

proof fn lemma_bare_word(s: Seq<char>)
    requires
        forall|i: int| 0 <= i < s.len() ==> is_bare(#[trigger] s[i]),
    ensures
        shell_word(s, false) == Some(s),
    decreases s.len(),
{
    if s.len() > 0 {
        assert(is_bare(s[0]));
        let rest = s.skip(1);
        assert forall|i: int| 0 <= i < rest.len() implies is_bare(#[trigger] rest[i]) by {
            assert(rest[i] == s[i + 1]);
        }
        lemma_bare_word(rest);
        assert(seq![s[0]] + rest =~= s);
    } else {
        assert(s =~= Seq::empty());
    }
}

proof fn lemma_quoted_char(c: char, t: Seq<char>)
    ensures
        shell_word(quoted_char(c) + t, true) == in_front_of(seq![c], shell_word(t, true)),
{
    let w = quoted_char(c) + t;
    if c == '\'' {
        let a = w.skip(1);
        assert(a =~= seq!['\\', '\'', '\''] + t);
        let b = a.skip(2);
        assert(b =~= seq!['\''] + t);
        assert(b.skip(1) =~= t);
        assert(shell_word(b, false) == shell_word(t, true));
        assert(!is_bare('\\'));
        assert(shell_word(a, false) == in_front_of(seq!['\''], shell_word(b, false)));
        assert(shell_word(w, true) == shell_word(a, false));
    } else {
        assert(w.skip(1) =~= t);
    }
}

proof fn lemma_quoted_chars(s: Seq<char>, t: Seq<char>)
    ensures
        shell_word(quoted_chars(s) + t, true) == in_front_of(s, shell_word(t, true)),
    decreases s.len(),
{
    if s.len() == 0 {
        assert(quoted_chars(s) + t =~= t);
        if let Some(x) = shell_word(t, true) {
            assert(s + x =~= x);
        }
    } else {
        let c = s.last();
        let rest = quoted_char(c) + t;
        assert(quoted_chars(s) + t =~= quoted_chars(s.drop_last()) + rest);
        lemma_quoted_chars(s.drop_last(), rest);
        lemma_quoted_char(c, t);
        if let Some(x) = shell_word(t, true) {
            assert(s.drop_last() + (seq![c] + x) =~= s + x);
        }
    }
}

/// A shell reads a quoted text back as one word, exactly as it was.
pub proof fn law_shell_reads_quoted_text_back(s: Seq<char>)
    ensures
        shell_word(quoted(s), false) == Some(s),
{
    if all_bare(s) {
        lemma_bare_word(s);
    } else {
        let q = quoted(s);
        let close = seq!['\''];
        assert(q.skip(1) =~= quoted_chars(s) + close);
        lemma_quoted_chars(s, close);
        assert(close.skip(1) =~= Seq::empty());
        assert(shell_word(close.skip(1), false) == Some(Seq::<char>::empty()));
        assert(shell_word(close, true) == Some(Seq::<char>::empty()));
        assert(s + Seq::<char>::empty() =~= s);
    }
}

/// Has the character a meaning in a regular expression of Go?
pub open spec fn is_regex_meta(c: char) -> bool {
    ||| c == '.'
    ||| c == '^'
    ||| c == '$'
    ||| c == '*'
    ||| c == '+'
    ||| c == '?'
    ||| c == '('
    ||| c == ')'
    ||| c == '['
    ||| c == ']'
    ||| c == '{'
    ||| c == '}'
    ||| c == '|'
    ||| c == '\\'
}

/// A character in a regular expression that matches it.
pub open spec fn regex_char(c: char) -> Seq<char> {
    if is_regex_meta(c) {
        seq!['\\', c]
    } else {
        seq![c]
    }
}

/// A regular expression that matches `s` and nothing else.
pub open spec fn regex_of(s: Seq<char>) -> Seq<char>
    decreases s.len(),
{
    if s.len() == 0 {
        Seq::empty()
    } else {
        regex_of(s.drop_last()) + regex_char(s.last())
    }
}

fn is_meta(c: char) -> (r: bool)
    ensures
        r == is_regex_meta(c),
{
    c == '.' || c == '^' || c == '$' || c == '*' || c == '+' || c == '?' || c == '(' || c == ')'
        || c == '[' || c == ']' || c == '{' || c == '}' || c == '|' || c == '\\'
}

/// A regular expression that matches `s` and nothing else.
pub fn escape_go_regex(s: &str) -> (r: String)
    ensures
        r@ == regex_of(s@),
{
    let sc = chars_of(s);
    let mut out: String = String::new();
    let mut i: usize = 0;
    assert(s@.take(0) =~= Seq::empty());
    assert(out@ =~= regex_of(s@.take(0)));
    while i < sc.len()
        invariant
            i <= sc@.len(),
            sc@ == s@,
            out@ == regex_of(s@.take(i as int)),
        decreases sc@.len() - i,
    {
        assert(s@.take(i + 1).drop_last() =~= s@.take(i as int));
        if is_meta(sc[i]) {
            out.push('\\');
        }
        out.push(sc[i]);
        assert(out@ =~= regex_of(s@.take(i + 1)));
        i = i + 1;
    }
    assert(s@.take(s@.len() as int) =~= s@);
    out
}

/// The text that a regular expression matches which holds nothing but
/// characters that stand for themselves, some behind a backslash.
pub open spec fn literal_of(regex: Seq<char>) -> Option<Seq<char>>
    decreases regex.len(),
{
    if regex.len() == 0 {
        Some(Seq::empty())
    } else if regex[0] == '\\' && regex.len() >= 2 {
        in_front_of(seq![regex[1]], literal_of(regex.skip(2)))
    } else if !is_regex_meta(regex[0]) {
        in_front_of(seq![regex[0]], literal_of(regex.skip(1)))
    } else {
        None
    }
}

/// `s` in front of the text `t`, when there is one.
pub open spec fn in_front_of(s: Seq<char>, t: Option<Seq<char>>) -> Option<Seq<char>> {
    match t {
        Some(x) => Some(s + x),
        None => None,
    }
}

proof fn lemma_regex_of(s: Seq<char>, t: Seq<char>)
    ensures
        literal_of(regex_of(s) + t) == in_front_of(s, literal_of(t)),
    decreases s.len(),
{
    if s.len() == 0 {
        assert(regex_of(s) + t =~= t);
        if let Some(x) = literal_of(t) {
            assert(s + x =~= x);
        }
    } else {
        let c = s.last();
        let rest = regex_char(c) + t;
        assert(regex_of(s) + t =~= regex_of(s.drop_last()) + rest);
        lemma_regex_of(s.drop_last(), rest);
        if is_regex_meta(c) {
            assert(rest.skip(2) =~= t);
        } else {
            assert(rest.skip(1) =~= t);
        }
        assert(literal_of(rest) == in_front_of(seq![c], literal_of(t)));
        if let Some(x) = literal_of(t) {
            assert(s.drop_last() + (seq![c] + x) =~= s + x);
        }
    }
}

/// The regular expression made of a name matches the name literally.
pub proof fn law_escaped_names_match_literally(s: Seq<char>)
    ensures
        literal_of(regex_of(s)) == Some(s),
{
    lemma_regex_of(s, Seq::empty());
    assert(regex_of(s) + Seq::<char>::empty() =~= regex_of(s));
    assert(literal_of(Seq::<char>::empty()) == Some(Seq::<char>::empty()));
    assert(s + Seq::<char>::empty() =~= s);
}

/// `vitest run`, on the one test or, where its name is computed, on the
/// whole file.
pub open spec fn vitest_command(t: SelectedView) -> Seq<char> {
    let run = "vitest run "@ + quoted(t.file);
    if t.computed {
        run
    } else {
        run + " -t "@ + quoted(text::join(t.name, " > "@))
    }
}

/// The pattern that one name of a Go test is matched by.
pub open spec fn go_pattern(name: Seq<char>) -> Seq<char> {
    if name == "<computed>"@ {
        ".*"@
    } else {
        "^"@ + regex_of(name) + "$"@
    }
}

/// The patterns that the names of a Go test are matched by.
pub open spec fn go_patterns(names: Seq<Seq<char>>) -> Seq<Seq<char>> {
    names.map_values(|n: Seq<char>| go_pattern(n))
}

/// The package of a Go file, as `go test` takes it.
pub open spec fn go_package(file: Seq<char>) -> Seq<char> {
    let dir = paths::directory_of(file);
    if dir.len() == 0 {
        "."@
    } else {
        "./"@ + dir
    }
}

/// `go test` on the package of the file, with a pattern for each name.
pub open spec fn gotest_command(t: SelectedView) -> Seq<char> {
    "go test "@ + quoted(go_package(t.file)) + " -run "@ + quoted(
        text::join(go_patterns(t.name), "/"@),
    )
}

/// `cargo test`, by the exact path or, where a name is computed, by what the
/// path holds.
pub open spec fn cargo_command(t: SelectedView) -> Seq<char> {
    let run = "cargo test "@ + quoted(text::join(t.name, "::"@));
    if t.computed {
        run
    } else {
        run + " -- --exact"@
    }
}

/// The command line that runs a test, for the runners that have one.
pub open spec fn command_for(t: SelectedView) -> Option<Seq<char>> {
    if t.runner == "vitest"@ {
        Some(vitest_command(t))
    } else if t.runner == "gotest"@ {
        Some(gotest_command(t))
    } else if t.runner == "cargo"@ {
        Some(cargo_command(t))
    } else {
        None
    }
}

fn vitest_line(t: &SelectedTest) -> (r: String)
    ensures
        r@ == vitest_command(t@),
{
    let run = cat("vitest run ", sh_quote(t.file.as_str()).as_str());
    if t.computed {
        run
    } else {
        let pattern = join_with(&t.name, " > ");
        cat3(run.as_str(), " -t ", sh_quote(pattern.as_str()).as_str())
    }
}

fn gotest_line(t: &SelectedTest) -> (r: String)
    ensures
        r@ == gotest_command(t@),
{
    let dir = directory(t.file.as_str());
    let package = if dir.as_str().is_empty() {
        ".".to_owned()
    } else {
        cat("./", dir.as_str())
    };
    let ghost names = text::views(t.name@);
    let mut patterns: Vec<String> = Vec::new();
    let mut i: usize = 0;
    while i < t.name.len()
        invariant
            i <= t.name@.len() == names.len(),
            names == text::views(t.name@),
            patterns@.len() == i,
            forall|j: int| 0 <= j < i ==> (#[trigger] patterns@[j])@ == go_pattern(names[j]),
        decreases t.name@.len() - i,
    {
        assert(names[i as int] == t.name@[i as int]@);
        let name = t.name[i].as_str();
        let pattern = if same(name, "<computed>") {
            ".*".to_owned()
        } else {
            cat3("^", escape_go_regex(name).as_str(), "$")
        };
        patterns.push(pattern);
        i = i + 1;
    }
    assert(text::views(patterns@) =~= go_patterns(names));
    let pattern = join_with(&patterns, "/");
    let run = cat3("go test ", sh_quote(package.as_str()).as_str(), " -run ");
    cat(run.as_str(), sh_quote(pattern.as_str()).as_str())
}

fn cargo_line(t: &SelectedTest) -> (r: String)
    ensures
        r@ == cargo_command(t@),
{
    let run = cat("cargo test ", sh_quote(join_with(&t.name, "::").as_str()).as_str());
    if t.computed {
        run
    } else {
        cat(run.as_str(), " -- --exact")
    }
}

/// Is `line` the command line of one of `tests`?
pub open spec fn runs_one_of(tests: Seq<SelectedView>, line: Seq<char>) -> bool {
    exists|i: int| 0 <= i < tests.len() && command_for(#[trigger] tests[i]) == Some(line)
}

/// The command lines that run `tests`, each once, in ascending order. Tests
/// of a runner without a command line are passed over.
pub fn command_lines(tests: &[SelectedTest]) -> (r: Vec<String>)
    ensures
        text::ascending(text::views(r@)),
        forall|l: Seq<char>| #[trigger]
            text::views(r@).contains(l) <==> runs_one_of(selected_views(tests@), l),
{
    let ghost all = selected_views(tests@);
    let mut out: Vec<String> = Vec::new();
    let mut i: usize = 0;
    while i < tests.len()
        invariant
            i <= tests@.len() == all.len(),
            all == selected_views(tests@),
            text::ascending(text::views(out@)),
            forall|l: Seq<char>| #[trigger]
                text::views(out@).contains(l) <==> runs_one_of(all.take(i as int), l),
        decreases tests@.len() - i,
    {
        let t = &tests[i];
        let ghost was = text::views(out@);
        assert(all[i as int] == t@);
        let line = if same(t.runner.as_str(), "vitest") {
            Some(vitest_line(t))
        } else if same(t.runner.as_str(), "gotest") {
            Some(gotest_line(t))
        } else if same(t.runner.as_str(), "cargo") {
            Some(cargo_line(t))
        } else {
            None
        };
        assert(text::opt_view(line) == command_for(t@));
        if let Some(l) = line {
            insert_line(&mut out, l);
        }
        assert forall|l: Seq<char>| #[trigger]
            text::views(out@).contains(l) <==> runs_one_of(all.take(i + 1), l) by {
            assert(was.contains(l) <==> runs_one_of(all.take(i as int), l));
            if runs_one_of(all.take(i as int), l) {
                let k = choose|k: int|
                    0 <= k < i && command_for(#[trigger] all.take(i as int)[k]) == Some(l);
                assert(all.take(i + 1)[k] == all.take(i as int)[k]);
            }
            if command_for(t@) == Some(l) {
                assert(all.take(i + 1)[i as int] == t@);
            }
            if runs_one_of(all.take(i + 1), l) && command_for(t@) != Some(l) {
                let k = choose|k: int|
                    0 <= k < i + 1 && command_for(#[trigger] all.take(i + 1)[k]) == Some(l);
                assert(k < i);
                assert(all.take(i as int)[k] == all.take(i + 1)[k]);
            }
        }
        i = i + 1;
    }
    assert(all.take(all.len() as int) =~= all);
    out
}

/// Does the character end a word of a POSIX shell, outside of quotes?
pub open spec fn is_blank(c: char) -> bool {
    c == ' ' || c == '\t' || c == '\n'
}

/// Does the character mean something else than itself to a POSIX shell,
/// outside of quotes, other than ending a word?
pub open spec fn is_special(c: char) -> bool {
    ||| c == '|'
    ||| c == '&'
    ||| c == ';'
    ||| c == '<'
    ||| c == '>'
    ||| c == '('
    ||| c == ')'
    ||| c == '$'
    ||| c == '`'
    ||| c == '"'
    ||| c == '*'
    ||| c == '?'
    ||| c == '['
    ||| c == ']'
    ||| c == '#'
    ||| c == '~'
    ||| c == '!'
    ||| c == '{'
    ||| c == '}'
    ||| c == '%'
}

/// Where a shell is in a command line.
pub enum Place {
    /// Between words.
    Between,
    /// In a word, outside of quotes.
    Word,
    /// In a word, within single quotes.
    Quotes,
    /// In a word, behind a backslash.
    Escape,
}

/// The words that a POSIX shell has read of a command line, with the word it
/// is in, and where it is; nothing where a character means something that is
/// no word.
pub open spec fn read_so_far(line: Seq<char>) -> Option<(Seq<Seq<char>>, Seq<char>, Place)>
    decreases line.len(),
{
    if line.len() == 0 {
        Some((Seq::empty(), Seq::empty(), Place::Between))
    } else {
        match read_so_far(line.drop_last()) {
            None => None,
            Some((words, word, place)) => {
                let c = line.last();
                match place {
                    Place::Quotes => if c == '\'' {
                        Some((words, word, Place::Word))
                    } else {
                        Some((words, word.push(c), Place::Quotes))
                    },
                    Place::Escape => Some((words, word.push(c), Place::Word)),
                    _ => if is_blank(c) {
                        if place is Word {
                            Some((words.push(word), Seq::empty(), Place::Between))
                        } else {
                            Some((words, word, Place::Between))
                        }
                    } else if c == '\'' {
                        Some((words, word, Place::Quotes))
                    } else if c == '\\' {
                        Some((words, word, Place::Escape))
                    } else if is_special(c) {
                        None
                    } else {
                        Some((words, word.push(c), Place::Word))
                    },
                }
            },
        }
    }
}

/// The words that a POSIX shell splits a command line into; nothing where the
/// line is more than words, or ends within one that is not closed.
pub open spec fn shell_words(line: Seq<char>) -> Option<Seq<Seq<char>>> {
    match read_so_far(line) {
        Some((words, word, place)) => match place {
            Place::Between => Some(words),
            Place::Word => Some(words.push(word)),
            _ => None,
        },
        None => None,
    }
}

proof fn lemma_read_push(line: Seq<char>, c: char)
    ensures
        line.push(c).drop_last() == line,
        line.push(c).last() == c,
{
    assert(line.push(c).drop_last() =~= line);
}

/// Characters that mean nothing else go into the word.
proof fn lemma_reads_plain(
    line: Seq<char>,
    words: Seq<Seq<char>>,
    word: Seq<char>,
    s: Seq<char>,
)
    requires
        read_so_far(line) == Some((words, word, Place::Between)) && word.len() == 0
            || read_so_far(line) == Some((words, word, Place::Word)),
        s.len() > 0,
        forall|i: int|
            0 <= i < s.len() ==> !is_blank(#[trigger] s[i]) && !is_special(s[i]) && s[i] != '\''
                && s[i] != '\\',
    ensures
        read_so_far(line + s) == Some((words, word + s, Place::Word)),
    decreases s.len(),
{
    let t = s.drop_last();
    let c = s.last();
    assert(s[s.len() - 1] == c);
    assert(line + s =~= (line + t).push(c));
    lemma_read_push(line + t, c);
    if t.len() > 0 {
        assert forall|i: int| 0 <= i < t.len() implies !is_blank(#[trigger] t[i]) && !is_special(
            t[i],
        ) && t[i] != '\'' && t[i] != '\\' by {
            assert(t[i] == s[i]);
        }
        lemma_reads_plain(line, words, word, t);
    } else {
        assert(line + t =~= line);
        assert(word + t =~= word);
    }
    assert((word + t).push(c) =~= word + s);
}

/// What stands within quotes goes into the word as it was.
proof fn lemma_reads_quoted(
    line: Seq<char>,
    words: Seq<Seq<char>>,
    word: Seq<char>,
    s: Seq<char>,
)
    requires
        read_so_far(line) == Some((words, word, Place::Quotes)),
    ensures
        read_so_far(line + quoted_chars(s)) == Some((words, word + s, Place::Quotes)),
    decreases s.len(),
{
    if s.len() == 0 {
        assert(line + quoted_chars(s) =~= line);
        assert(word + s =~= word);
    } else {
        let t = s.drop_last();
        let c = s.last();
        lemma_reads_quoted(line, words, word, t);
        let l = line + quoted_chars(t);
        assert((word + t).push(c) =~= word + s);
        if c == '\'' {
            let l1 = l.push('\'');
            let l2 = l1.push('\\');
            let l3 = l2.push('\'');
            let l4 = l3.push('\'');
            lemma_read_push(l, '\'');
            lemma_read_push(l1, '\\');
            lemma_read_push(l2, '\'');
            lemma_read_push(l3, '\'');
            let w = word + t;
            assert(read_so_far(l1) == Some((words, w, Place::Word)));
            assert(read_so_far(l2) == Some((words, w, Place::Escape)));
            assert(read_so_far(l3) == Some((words, w.push(c), Place::Word)));
            assert(read_so_far(l4) == Some((words, w.push(c), Place::Quotes)));
            assert(line + quoted_chars(s) =~= l4);
        } else {
            lemma_read_push(l, c);
            assert(line + quoted_chars(s) =~= l.push(c));
        }
    }
}

/// A quoted text is one word, exactly as it was.
proof fn lemma_reads_word(line: Seq<char>, words: Seq<Seq<char>>, s: Seq<char>)
    requires
        read_so_far(line) == Some((words, Seq::<char>::empty(), Place::Between)),
    ensures
        read_so_far(line + quoted(s)) == Some((words, s, Place::Word)),
{
    let none = Seq::<char>::empty();
    if all_bare(s) {
        assert forall|i: int| 0 <= i < s.len() implies !is_blank(#[trigger] s[i]) && !is_special(
            s[i],
        ) && s[i] != '\'' && s[i] != '\\' by {
            assert(is_bare(s[i]));
        }
        lemma_reads_plain(line, words, none, s);
        assert(none + s =~= s);
    } else {
        let open = line.push('\'');
        lemma_read_push(line, '\'');
        lemma_reads_quoted(open, words, none, s);
        assert(none + s =~= s);
        let l = open + quoted_chars(s);
        lemma_read_push(l, '\'');
        assert(line + quoted(s) =~= l.push('\''));
    }
}

/// A blank ends a word.
proof fn lemma_reads_blank(line: Seq<char>, words: Seq<Seq<char>>, s: Seq<char>)
    requires
        read_so_far(line) == Some((words, s, Place::Word)),
    ensures
        read_so_far(line.push(' ')) == Some(
            (words.push(s), Seq::<char>::empty(), Place::Between),
        ),
{
    lemma_read_push(line, ' ');
}

/// Is the text a word that stands for itself?
spec fn plain(s: Seq<char>) -> bool {
    s.len() > 0 && forall|i: int|
        0 <= i < s.len() ==> !is_blank(#[trigger] s[i]) && !is_special(s[i]) && s[i] != '\'' && s[i]
            != '\\'
}

/// A plain word and a blank.
proof fn lemma_reads_plain_word(line: Seq<char>, words: Seq<Seq<char>>, s: Seq<char>)
    requires
        read_so_far(line) == Some((words, Seq::<char>::empty(), Place::Between)),
        plain(s),
    ensures
        read_so_far(line + s) == Some((words, s, Place::Word)),
        read_so_far((line + s).push(' ')) == Some(
            (words.push(s), Seq::<char>::empty(), Place::Between),
        ),
{
    lemma_reads_plain(line, words, Seq::empty(), s);
    assert(Seq::<char>::empty() + s =~= s);
    lemma_reads_blank(line + s, words, s);
}

/// Whatever a text holds, a shell reads it back as one word where it is
/// quoted.
pub proof fn law_a_quoted_text_is_one_word(s: Seq<char>)
    ensures
        shell_words(quoted(s)) == Some(seq![s]),
{
    let none = Seq::<char>::empty();
    lemma_reads_word(none, Seq::empty(), s);
    assert(none + quoted(s) =~= quoted(s));
    assert(Seq::<Seq<char>>::empty().push(s) =~= seq![s]);
}

/// A shell splits the command of a vitest test into the runner, the file and,
/// where the name is written out, the names joined by ` > `.
pub proof fn law_shell_splits_vitest_commands(t: SelectedView)
    requires
        t.runner == "vitest"@,
    ensures
        command_for(t) matches Some(line) && shell_words(line) == Some(
            if t.computed {
                seq!["vitest"@, "run"@, t.file]
            } else {
                seq!["vitest"@, "run"@, t.file, "-t"@, text::join(t.name, " > "@)]
            },
        ),
{
    reveal_strlit("vitest");
    reveal_strlit("run");
    reveal_strlit("-t");
    reveal_strlit("vitest run ");
    reveal_strlit(" -t ");
    let none = Seq::<char>::empty();
    let w0 = Seq::<Seq<char>>::empty();
    lemma_reads_plain_word(none, w0, "vitest"@);
    let l1 = (none + "vitest"@).push(' ');
    let w1 = w0.push("vitest"@);
    lemma_reads_plain_word(l1, w1, "run"@);
    let l2 = (l1 + "run"@).push(' ');
    let w2 = w1.push("run"@);
    assert(l2 =~= "vitest run "@);
    lemma_reads_word(l2, w2, t.file);
    let l3 = l2 + quoted(t.file);
    let line = vitest_command(t);
    if t.computed {
        assert(w2.push(t.file) =~= seq!["vitest"@, "run"@, t.file]);
        assert(line == l3);
    } else {
        let names = text::join(t.name, " > "@);
        lemma_reads_blank(l3, w2, t.file);
        let l4 = l3.push(' ');
        let w3 = w2.push(t.file);
        lemma_reads_plain_word(l4, w3, "-t"@);
        let l5 = (l4 + "-t"@).push(' ');
        let w4 = w3.push("-t"@);
        lemma_reads_word(l5, w4, names);
        assert(line =~= l5 + quoted(names));
        assert(w4.push(names) =~= seq!["vitest"@, "run"@, t.file, "-t"@, names]);
    }
    lemma_runners_have_names();
}

/// The runners are told apart by their names.
proof fn lemma_runners_have_names()
    ensures
        "vitest"@ != "gotest"@,
        "vitest"@ != "cargo"@,
        "gotest"@ != "cargo"@,
{
    reveal_strlit("vitest");
    reveal_strlit("gotest");
    reveal_strlit("cargo");
    assert("vitest"@[0] == 'v');
    assert("gotest"@[0] == 'g');
    assert("cargo"@[0] == 'c');
}

/// A shell splits the command of a Rust test into the runner, the names joined
/// by `::` and, where the name is written out, the demand for an exact match.
pub proof fn law_shell_splits_cargo_commands(t: SelectedView)
    requires
        t.runner == "cargo"@,
    ensures
        command_for(t) matches Some(line) && shell_words(line) == Some(
            if t.computed {
                seq!["cargo"@, "test"@, text::join(t.name, "::"@)]
            } else {
                seq!["cargo"@, "test"@, text::join(t.name, "::"@), "--"@, "--exact"@]
            },
        ),
{
    reveal_strlit("cargo");
    reveal_strlit("test");
    reveal_strlit("--");
    reveal_strlit("--exact");
    reveal_strlit("cargo test ");
    reveal_strlit(" -- --exact");
    lemma_runners_have_names();
    let none = Seq::<char>::empty();
    let w0 = Seq::<Seq<char>>::empty();
    lemma_reads_plain_word(none, w0, "cargo"@);
    let l1 = (none + "cargo"@).push(' ');
    let w1 = w0.push("cargo"@);
    lemma_reads_plain_word(l1, w1, "test"@);
    let l2 = (l1 + "test"@).push(' ');
    let w2 = w1.push("test"@);
    assert(l2 =~= "cargo test "@);
    let names = text::join(t.name, "::"@);
    lemma_reads_word(l2, w2, names);
    let l3 = l2 + quoted(names);
    let line = cargo_command(t);
    if t.computed {
        assert(w2.push(names) =~= seq!["cargo"@, "test"@, names]);
        assert(line == l3);
    } else {
        lemma_reads_blank(l3, w2, names);
        let l4 = l3.push(' ');
        let w3 = w2.push(names);
        lemma_reads_plain_word(l4, w3, "--"@);
        let l5 = (l4 + "--"@).push(' ');
        let w4 = w3.push("--"@);
        lemma_reads_plain_word(l5, w4, "--exact"@);
        assert(line =~= l5 + "--exact"@);
        assert(w4.push("--exact"@) =~= seq!["cargo"@, "test"@, names, "--"@, "--exact"@]);
    }
}

/// The text that an anchored pattern of Go matches and no other: that of one
/// name between `^` and `$`.
pub open spec fn anchored_text(pattern: Seq<char>) -> Option<Seq<char>> {
    if pattern.len() >= 2 && pattern[0] == '^' && pattern.last() == '$' {
        literal_of(pattern.subrange(1, pattern.len() - 1))
    } else {
        None
    }
}

/// A shell splits the command of a Go test into the runner, the directory of
/// the file, and patterns joined by `/`: one for each name, which matches the
/// name and nothing else, or anything where the name is computed.
pub proof fn law_shell_splits_go_commands(t: SelectedView)
    requires
        t.runner == "gotest"@,
    ensures
        command_for(t) matches Some(line) && exists|package: Seq<char>, patterns: Seq<Seq<char>>|
            shell_words(line) == Some(
                seq!["go"@, "test"@, package, "-run"@, #[trigger] text::join(patterns, "/"@)],
            ) && #[trigger] is_go_package(package, t.file) && patterns.len() == t.name.len() && (
            forall|i: int|
                0 <= i < t.name.len() ==> if t.name[i] == "<computed>"@ {
                    #[trigger] patterns[i] == seq!['.', '*']
                } else {
                    anchored_text(patterns[i]) == Some(t.name[i])
                }),
{
    reveal_strlit("go");
    reveal_strlit("test");
    reveal_strlit("-run");
    reveal_strlit("go test ");
    reveal_strlit(" -run ");
    reveal_strlit("./");
    reveal_strlit(".");
    reveal_strlit("^");
    reveal_strlit("$");
    reveal_strlit(".*");
    lemma_runners_have_names();
    let none = Seq::<char>::empty();
    let w0 = Seq::<Seq<char>>::empty();
    let package = go_package(t.file);
    let patterns = go_patterns(t.name);
    let names = text::join(patterns, "/"@);
    lemma_reads_plain_word(none, w0, "go"@);
    let l1 = (none + "go"@).push(' ');
    let w1 = w0.push("go"@);
    lemma_reads_plain_word(l1, w1, "test"@);
    let l2 = (l1 + "test"@).push(' ');
    let w2 = w1.push("test"@);
    assert(l2 =~= "go test "@);
    lemma_reads_word(l2, w2, package);
    let l3 = l2 + quoted(package);
    lemma_reads_blank(l3, w2, package);
    let l4 = l3.push(' ');
    let w3 = w2.push(package);
    lemma_reads_plain_word(l4, w3, "-run"@);
    let l5 = (l4 + "-run"@).push(' ');
    let w4 = w3.push("-run"@);
    lemma_reads_word(l5, w4, names);
    assert(gotest_command(t) =~= l5 + quoted(names));
    assert(w4.push(names) =~= seq!["go"@, "test"@, package, "-run"@, names]);
    assert(is_go_package(package, t.file)) by {
        let dir = paths::directory_of(t.file);
        if dir.len() == 0 {
            assert(package =~= seq!['.']);
        } else {
            assert(package =~= seq!['.', '/'] + dir);
        }
    }
    assert forall|i: int| 0 <= i < t.name.len() implies if t.name[i] == "<computed>"@ {
        #[trigger] patterns[i] == seq!['.', '*']
    } else {
        anchored_text(patterns[i]) == Some(t.name[i])
    } by {
        assert(patterns[i] == go_pattern(t.name[i]));
        if t.name[i] == "<computed>"@ {
            assert(patterns[i] =~= seq!['.', '*']);
        } else {
            let p = patterns[i];
            law_escaped_names_match_literally(t.name[i]);
            assert(p.subrange(1, p.len() - 1) =~= regex_of(t.name[i]));
            assert(p.last() == '$');
        }
    }
}

/// Is this how `go test` is told the package of the file: `.` for a file at
/// the top, and `./` with its directory for any other?
pub open spec fn is_go_package(package: Seq<char>, file: Seq<char>) -> bool {
    if paths::directory_of(file).len() == 0 {
        package == seq!['.']
    } else {
        package == seq!['.', '/'] + paths::directory_of(file)
    }
}

/// Only tests of the three runners have a command.
pub proof fn law_other_runners_have_no_command(t: SelectedView)
    ensures
        command_for(t) is Some <==> t.runner == "vitest"@ || t.runner == "gotest"@ || t.runner
            == "cargo"@,
{
}

/// Tests of one file whose names are computed share a command, and so it is
/// listed once.
pub proof fn law_computed_tests_share_a_command(a: SelectedView, b: SelectedView)
    requires
        a.runner == "vitest"@,
        b.runner == "vitest"@,
        a.file == b.file,
        a.computed,
        b.computed,
    ensures
        command_for(a) == command_for(b),
{
}

/// Two lists that rise and hold the same lines are the same list.
pub proof fn law_ascending_lines_are_determined(a: Seq<Seq<char>>, b: Seq<Seq<char>>)
    requires
        text::ascending(a),
        text::ascending(b),
        forall|l: Seq<char>| #[trigger] a.contains(l) <==> b.contains(l),
    ensures
        a == b,
    decreases a.len(),
{
    if a.len() == 0 {
        if b.len() > 0 {
            assert(b.contains(b[0]));
            assert(a.contains(b[0]));
        }
        assert(a =~= b);
    } else {
        assert(a.contains(a[0]));
        assert(b.contains(a[0]));
        assert(b.len() > 0);
        assert(b.contains(b[0]));
        assert(a.contains(b[0]));
        if a[0] != b[0] {
            let i = choose|i: int| 0 <= i < b.len() && b[i] == a[0];
            let j = choose|j: int| 0 <= j < a.len() && a[j] == b[0];
            assert(text::precedes(b[0], b[i]));
            assert(text::precedes(a[0], a[j]));
            text::lemma_precedes_transitive(a[0], b[0], a[0]);
            text::lemma_precedes_irreflexive(a[0]);
        }
        let x = a.skip(1);
        let y = b.skip(1);
        assert forall|l: Seq<char>| #[trigger] x.contains(l) <==> y.contains(l) by {
            if x.contains(l) {
                let i = choose|i: int| 0 <= i < x.len() && x[i] == l;
                assert(a[i + 1] == l);
                assert(text::precedes(a[0], a[i + 1]));
                text::lemma_precedes_irreflexive(l);
                assert(a.contains(l));
                let j = choose|j: int| 0 <= j < b.len() && b[j] == l;
                assert(j > 0);
                assert(y[j - 1] == l);
            }
            if y.contains(l) {
                let i = choose|i: int| 0 <= i < y.len() && y[i] == l;
                assert(b[i + 1] == l);
                assert(text::precedes(b[0], b[i + 1]));
                text::lemma_precedes_irreflexive(l);
                assert(b.contains(l));
                assert(a.contains(l));
                let j = choose|j: int| 0 <= j < a.len() && a[j] == l;
                assert(j > 0);
                assert(x[j - 1] == l);
            }
        }
        assert forall|i: int, j: int| 0 <= i < j < x.len() implies text::precedes(
            #[trigger] x[i],
            #[trigger] x[j],
        ) by {
            assert(x[i] == a[i + 1] && x[j] == a[j + 1]);
        }
        assert forall|i: int, j: int| 0 <= i < j < y.len() implies text::precedes(
            #[trigger] y[i],
            #[trigger] y[j],
        ) by {
            assert(y[i] == b[i + 1] && y[j] == b[j + 1]);
        }
        law_ascending_lines_are_determined(x, y);
        assert(a =~= seq![a[0]] + x);
        assert(b =~= seq![b[0]] + y);
    }
}

} // verus!
