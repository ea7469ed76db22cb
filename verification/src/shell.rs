//! mShell's command line: splitting a line into words and deciding which
//! command it asks for, with its arguments.

use vstd::prelude::*;
use vstd::string::StringSliceAdditionalSpecFns;
use vstd::utf8::{encode_utf8, encode_utf8_decode_utf8};
use crate::bytes::bytes_eq;

verus! {

/// Unicode `White_Space`, the property `char::is_whitespace` tests.
pub open spec fn is_white_space(c: char) -> bool {
    let u = c as u32;
    ||| 0x09 <= u <= 0x0D
    ||| u == 0x20
    ||| u == 0x85
    ||| u == 0xA0
    ||| u == 0x1680
    ||| 0x2000 <= u <= 0x200A
    ||| u == 0x2028
    ||| u == 0x2029
    ||| u == 0x202F
    ||| u == 0x205F
    ||| u == 0x3000
}

/// The words of `s`: its maximal runs of non-white-space characters, in
/// order.
pub open spec fn ws_words(s: Seq<char>) -> Seq<Seq<char>>
    decreases s.len(),
{
    if s.len() == 0 {
        Seq::empty()
    } else {
        let prefix = s.drop_last();
        let c = s.last();
        let w = ws_words(prefix);
        if is_white_space(c) {
            w
        } else if prefix.len() > 0 && !is_white_space(prefix.last()) {
            w.update(w.len() - 1, w.last().push(c))
        } else {
            w.push(seq![c])
        }
    }
}

/// `str::split_whitespace`, collected: the words of `s`.
#[verifier::external_body]
fn split_whitespace<'a>(s: &'a str) -> (words: Vec<&'a str>)
    ensures
        words@.len() == ws_words(s@).len(),
        forall|k: int| 0 <= k < words@.len() ==> (#[trigger] words@[k])@ == ws_words(s@)[k],
{
    s.split_whitespace().collect()
}

/// Two string slices hold the same characters.
fn str_eq(a: &str, b: &str) -> (r: bool)
    ensures
        r == (a@ == b@),
{
    let r = bytes_eq(a.as_bytes(), b.as_bytes());
    proof {
        encode_utf8_decode_utf8(a@);
        encode_utf8_decode_utf8(b@);
    }
    r
}

/// Decimal digits `s`, all of them ASCII digits.
pub open spec fn all_digits(s: Seq<u8>) -> bool {
    forall|i: int| 0 <= i < s.len() ==> 0x30 <= #[trigger] s[i] <= 0x39
}

/// The value of the decimal digits `s`.
pub open spec fn digits_value(s: Seq<u8>) -> int
    decreases s.len(),
{
    if s.len() == 0 {
        0
    } else {
        10 * digits_value(s.drop_last()) + (s.last() - 0x30)
    }
}

/// What `u64::from_str` gives for the bytes `s`: an optional `+`, then one
/// or more decimal digits whose value fits in a `u64`.
pub open spec fn parse_u64_spec(s: Seq<u8>) -> Option<u64> {
    let digits = if s.len() > 0 && s[0] == 0x2B { s.drop_first() } else { s };
    if digits.len() > 0 && all_digits(digits) && digits_value(digits) <= u64::MAX {
        Some(digits_value(digits) as u64)
    } else {
        None
    }
}

/// Parses a decimal `u64` as `str::parse::<u64>` does.
pub fn parse_u64(s: &str) -> (r: Option<u64>)
    ensures
        r == parse_u64_spec(s.spec_bytes()),
{
    let b = s.as_bytes();
    let ghost bs = b@;
    let mut start: usize = 0;
    if b.len() > 0 && b[0] == 0x2B {
        start = 1;
    }
    let ghost digits = bs.subrange(start as int, bs.len() as int);
    proof {
        if bs.len() > 0 && bs[0] == 0x2B {
            assert(digits =~= bs.drop_first());
        } else {
            assert(digits =~= bs);
        }
    }
    if start == b.len() {
        return None;
    }
    let mut value: u64 = 0;
    let mut i: usize = start;
    while i < b.len()
        invariant
            b@ == bs,
            bs == s.spec_bytes(),
            start <= i <= bs.len(),
            digits == bs.subrange(start as int, bs.len() as int),
            digits == (if bs.len() > 0 && bs[0] == 0x2B { bs.drop_first() } else { bs }),
            digits.len() > 0,
            all_digits(bs.subrange(start as int, i as int)),
            value == digits_value(bs.subrange(start as int, i as int)),
        decreases bs.len() - i,
    {
        let c = b[i];
        let ghost pre = bs.subrange(start as int, i as int);
        let ghost next = bs.subrange(start as int, i + 1);
        proof {
            assert(next.drop_last() =~= pre);
            assert(next.last() == c);
        }
        if c < 0x30 || c > 0x39 {
            proof {
                assert(!all_digits(digits)) by {
                    assert(digits[i - start] == c);
                }
            }
            return None;
        }
        let d = (c - 0x30) as u64;
        let m = value.checked_mul(10);
        let next_value = match m {
            Some(m) => m.checked_add(d),
            None => None,
        };
        match next_value {
            Some(v) => {
                value = v;
            },
            None => {
                proof {
                    assert(digits_value(next) == 10 * value + d);
                    if all_digits(digits) {
                        lemma_digits_prefix_bound(digits, (i - start + 1) as int);
                        assert(digits.subrange(0, (i - start + 1) as int) =~= next);
                    }
                }
                return None;
            },
        }
        i = i + 1;
    }
    proof {
        assert(bs.subrange(start as int, bs.len() as int) =~= digits);
    }
    Some(value)
}

/// The value of a prefix of a digit string never exceeds the whole value.
proof fn lemma_digits_prefix_bound(s: Seq<u8>, k: int)
    requires
        all_digits(s),
        0 <= k <= s.len(),
    ensures
        digits_value(s.subrange(0, k)) <= digits_value(s),
        digits_value(s) >= 0,
    decreases s.len() - k,
{
    lemma_digits_nonneg(s);
    if k < s.len() {
        lemma_digits_prefix_bound(s, k + 1);
        let p = s.subrange(0, k + 1);
        assert(p.drop_last() =~= s.subrange(0, k));
        lemma_digits_nonneg(s.subrange(0, k));
    } else {
        assert(s.subrange(0, k) =~= s);
    }
}

proof fn lemma_digits_nonneg(s: Seq<u8>)
    requires
        all_digits(s),
    ensures
        digits_value(s) >= 0,
    decreases s.len(),
{
    if s.len() > 0 {
        assert(all_digits(s.drop_last()));
        lemma_digits_nonneg(s.drop_last());
    }
}


/// A single decimal digit parses to its value.
pub proof fn law_parse_u64_digit(c: u8)
    requires
        0x30 <= c <= 0x39,
    ensures
        parse_u64_spec(seq![c]) == Some((c - 0x30) as u64),
{
    let s = seq![c];
    assert(s[0] == c);
    assert(s.drop_last() =~= Seq::<u8>::empty());
    assert(s.last() == c);
    assert(digits_value(Seq::<u8>::empty()) == 0);
    assert(digits_value(s) == c - 0x30);
    assert(all_digits(s));
}

/// Appending a digit to a number multiplies it by ten and adds the digit,
/// as long as the result fits in a `u64`; past that, nothing parses.
pub proof fn law_parse_u64_append(s: Seq<u8>, c: u8, v: u64)
    requires
        parse_u64_spec(s) == Some(v),
        0x30 <= c <= 0x39,
    ensures
        10 * v + (c - 0x30) <= u64::MAX ==> parse_u64_spec(s.push(c)) == Some((10 * v + (c - 0x30)) as u64),
        10 * v + (c - 0x30) > u64::MAX ==> parse_u64_spec(s.push(c)) is None,
{
    let digits = if s.len() > 0 && s[0] == 0x2B { s.drop_first() } else { s };
    let t = s.push(c);
    let tdigits = if t.len() > 0 && t[0] == 0x2B { t.drop_first() } else { t };
    assert(t[0] == s[0]);
    if s[0] == 0x2B {
        assert(tdigits =~= digits.push(c));
    } else {
        assert(tdigits =~= digits.push(c));
    }
    assert(tdigits.drop_last() =~= digits);
    assert(tdigits.last() == c);
    assert(digits.len() > 0 && all_digits(digits) && digits_value(digits) <= u64::MAX);
    lemma_digits_nonneg(digits);
    assert(v == digits_value(digits));
    assert(digits_value(tdigits) == 10 * digits_value(digits) + (c - 0x30));
    assert(tdigits.len() > 0);
    assert(all_digits(tdigits)) by {
        assert forall|i: int| 0 <= i < tdigits.len() implies 0x30 <= #[trigger] tdigits[i] <= 0x39 by {
            if i < digits.len() {
                assert(tdigits[i] == digits[i]);
            }
        }
    }
}

/// A leading `+` before digits changes nothing.
pub proof fn law_parse_u64_plus(s: Seq<u8>)
    requires
        s.len() > 0,
        0x30 <= s[0] <= 0x39,
    ensures
        parse_u64_spec(seq![0x2Bu8] + s) == parse_u64_spec(s),
{
    let t = seq![0x2Bu8] + s;
    assert(t[0] == 0x2B);
    assert(t.drop_first() =~= s);
}

/// Nothing parses from an empty string, a lone `+`, or a string with a byte
/// that is not a digit, other than one leading `+`.
pub proof fn law_parse_u64_rejects(s: Seq<u8>, i: int)
    ensures
        parse_u64_spec(Seq::empty()) is None,
        parse_u64_spec(seq![0x2Bu8]) is None,
        0 <= i < s.len() && !(0x30 <= s[i] <= 0x39) && !(i == 0 && s[i] == 0x2B) ==> parse_u64_spec(s) is None,
{
    assert(seq![0x2Bu8].drop_first() =~= Seq::<u8>::empty());
    if 0 <= i < s.len() && !(0x30 <= s[i] <= 0x39) && !(i == 0 && s[i] == 0x2B) {
        let digits = if s.len() > 0 && s[0] == 0x2B { s.drop_first() } else { s };
        if s[0] == 0x2B {
            assert(digits[i - 1] == s[i]);
        } else {
            assert(digits[i] == s[i]);
        }
    }
}


/// A line of the shell, decided: the command and its arguments as typed.
pub enum Command {
    /// A blank line.
    Empty,
    Help,
    Ver,
    Clear,
    Shutdown,
    Reboot,
    ShellVer,
    /// `ls [path]`; the path is empty when none is given.
    Ls(String),
    Mkdir(Option<String>),
    Cd(Option<String>),
    Pwd,
    Create(Option<String>),
    /// `write <name> <words...>`: the name, and the words after it joined by
    /// single spaces, as UTF-8 bytes.
    Write(Option<String>, Vec<u8>),
    Cat(Option<String>),
    Rm(Option<String>),
    Yustupid,
    /// `sleep [seconds]`: `None` without an argument, `Some(None)` when the
    /// argument is not a `u64`.
    Sleep(Option<Option<u64>>),
    Mfetch,
    Prompt,
    /// Any other first word.
    Unknown(String),
}

/// Word `k` of `w`, if there is one.
pub open spec fn word_at(w: Seq<Seq<char>>, k: int) -> Option<Seq<char>> {
    if 0 <= k < w.len() { Some(w[k]) } else { None }
}

/// An optional argument as typed.
pub open spec fn same_arg(a: Option<String>, w: Option<Seq<char>>) -> bool {
    match a {
        Some(s) => w == Some(s@),
        None => w is None,
    }
}

/// The byte strings `ws`, joined by single spaces.
pub open spec fn join_spaced(ws: Seq<Seq<u8>>) -> Seq<u8>
    decreases ws.len(),
{
    if ws.len() == 0 {
        Seq::empty()
    } else if ws.len() == 1 {
        ws[0]
    } else {
        join_spaced(ws.drop_last()).push(0x20u8) + ws.last()
    }
}

/// The UTF-8 bytes of the words of `w` from word `k` on.
pub open spec fn words_bytes_from(w: Seq<Seq<char>>, k: int) -> Seq<Seq<u8>> {
    Seq::new((if w.len() > k { w.len() - k } else { 0 }) as nat, |j: int| encode_utf8(w[k + j]))
}

/// The commands the shell knows, by their first word.
#[derive(PartialEq, Eq, Structural)]
pub enum CommandWord {
    Help,
    Ver,
    Clear,
    Shutdown,
    Reboot,
    ShellVer,
    Ls,
    Mkdir,
    Cd,
    Pwd,
    Create,
    Write,
    Cat,
    Rm,
    Yustupid,
    Sleep,
    Mfetch,
    Prompt,
    Other,
}

/// The command that the word `c` names.
pub open spec fn word_kind(c: Seq<char>) -> CommandWord {
    if c == "help"@ {
        CommandWord::Help
    } else if c == "ver"@ {
        CommandWord::Ver
    } else if c == "clear"@ {
        CommandWord::Clear
    } else if c == "shutdown"@ {
        CommandWord::Shutdown
    } else if c == "reboot"@ {
        CommandWord::Reboot
    } else if c == "shellver"@ {
        CommandWord::ShellVer
    } else if c == "ls"@ {
        CommandWord::Ls
    } else if c == "mkdir"@ {
        CommandWord::Mkdir
    } else if c == "cd"@ {
        CommandWord::Cd
    } else if c == "pwd"@ {
        CommandWord::Pwd
    } else if c == "create"@ {
        CommandWord::Create
    } else if c == "write"@ {
        CommandWord::Write
    } else if c == "cat"@ {
        CommandWord::Cat
    } else if c == "rm"@ {
        CommandWord::Rm
    } else if c == "yustupid"@ {
        CommandWord::Yustupid
    } else if c == "sleep"@ {
        CommandWord::Sleep
    } else if c == "mfetch"@ {
        CommandWord::Mfetch
    } else if c == "prompt"@ {
        CommandWord::Prompt
    } else {
        CommandWord::Other
    }
}

/// The command word of a decided line.
pub open spec fn kind_of(c: Command) -> CommandWord {
    match c {
        Command::Empty => CommandWord::Other,
        Command::Help => CommandWord::Help,
        Command::Ver => CommandWord::Ver,
        Command::Clear => CommandWord::Clear,
        Command::Shutdown => CommandWord::Shutdown,
        Command::Reboot => CommandWord::Reboot,
        Command::ShellVer => CommandWord::ShellVer,
        Command::Ls(_) => CommandWord::Ls,
        Command::Mkdir(_) => CommandWord::Mkdir,
        Command::Cd(_) => CommandWord::Cd,
        Command::Pwd => CommandWord::Pwd,
        Command::Create(_) => CommandWord::Create,
        Command::Write(_, _) => CommandWord::Write,
        Command::Cat(_) => CommandWord::Cat,
        Command::Rm(_) => CommandWord::Rm,
        Command::Yustupid => CommandWord::Yustupid,
        Command::Sleep(_) => CommandWord::Sleep,
        Command::Mfetch => CommandWord::Mfetch,
        Command::Prompt => CommandWord::Prompt,
        Command::Unknown(_) => CommandWord::Other,
    }
}

/// Each command is named by exactly its word: a word names a command only
/// when it is that command's word, letter for letter, and any other word
/// names none.
pub proof fn law_command_words(c: Seq<char>)
    ensures
        (word_kind(c) == CommandWord::Help) == (c == "help"@),
        (word_kind(c) == CommandWord::Ver) == (c == "ver"@),
        (word_kind(c) == CommandWord::Clear) == (c == "clear"@),
        (word_kind(c) == CommandWord::Shutdown) == (c == "shutdown"@),
        (word_kind(c) == CommandWord::Reboot) == (c == "reboot"@),
        (word_kind(c) == CommandWord::ShellVer) == (c == "shellver"@),
        (word_kind(c) == CommandWord::Ls) == (c == "ls"@),
        (word_kind(c) == CommandWord::Mkdir) == (c == "mkdir"@),
        (word_kind(c) == CommandWord::Cd) == (c == "cd"@),
        (word_kind(c) == CommandWord::Pwd) == (c == "pwd"@),
        (word_kind(c) == CommandWord::Create) == (c == "create"@),
        (word_kind(c) == CommandWord::Write) == (c == "write"@),
        (word_kind(c) == CommandWord::Cat) == (c == "cat"@),
        (word_kind(c) == CommandWord::Rm) == (c == "rm"@),
        (word_kind(c) == CommandWord::Yustupid) == (c == "yustupid"@),
        (word_kind(c) == CommandWord::Sleep) == (c == "sleep"@),
        (word_kind(c) == CommandWord::Mfetch) == (c == "mfetch"@),
        (word_kind(c) == CommandWord::Prompt) == (c == "prompt"@),
        (word_kind(c) == CommandWord::Other) == (c != "help"@ && c != "ver"@ && c != "clear"@ && c != "shutdown"@ && c != "reboot"@ && c != "shellver"@ && c != "ls"@ && c != "mkdir"@ && c != "cd"@ && c != "pwd"@ && c != "create"@ && c != "write"@ && c != "cat"@ && c != "rm"@ && c != "yustupid"@ && c != "sleep"@ && c != "mfetch"@ && c != "prompt"@),
{
        reveal_strlit("help");
        reveal_strlit("ver");
        reveal_strlit("clear");
        reveal_strlit("shutdown");
        reveal_strlit("reboot");
        reveal_strlit("shellver");
        reveal_strlit("ls");
        reveal_strlit("mkdir");
        reveal_strlit("cd");
        reveal_strlit("pwd");
        reveal_strlit("create");
        reveal_strlit("write");
        reveal_strlit("cat");
        reveal_strlit("rm");
        reveal_strlit("yustupid");
        reveal_strlit("sleep");
        reveal_strlit("mfetch");
        reveal_strlit("prompt");
    assert("help"@.len() == 4 && "help"@[0] == 'h');
    assert("ver"@.len() == 3 && "ver"@[0] == 'v');
    assert("clear"@.len() == 5 && "clear"@[0] == 'c');
    assert("shutdown"@.len() == 8 && "shutdown"@[0] == 's');
    assert("reboot"@.len() == 6 && "reboot"@[0] == 'r');
    assert("shellver"@.len() == 8 && "shellver"@[0] == 's');
    assert("shellver"@[2] == 'e' && "shutdown"@[2] == 'u');
    assert("ls"@.len() == 2 && "ls"@[0] == 'l');
    assert("mkdir"@.len() == 5 && "mkdir"@[0] == 'm');
    assert("cd"@.len() == 2 && "cd"@[0] == 'c');
    assert("pwd"@.len() == 3 && "pwd"@[0] == 'p');
    assert("create"@.len() == 6 && "create"@[0] == 'c');
    assert("write"@.len() == 5 && "write"@[0] == 'w');
    assert("cat"@.len() == 3 && "cat"@[0] == 'c');
    assert("rm"@.len() == 2 && "rm"@[0] == 'r');
    assert("yustupid"@.len() == 8 && "yustupid"@[0] == 'y');
    assert("sleep"@.len() == 5 && "sleep"@[0] == 's');
    assert("mfetch"@.len() == 6 && "mfetch"@[0] == 'm');
    assert("prompt"@.len() == 6 && "prompt"@[0] == 'p');
}

/// An argument position is filled exactly when the line has a word there,
/// and then with that word.
pub proof fn law_argument_given_back(a: Option<String>, w: Seq<Seq<char>>, k: int)
    requires
        same_arg(a, word_at(w, k)),
    ensures
        (a is Some) == (0 <= k < w.len()),
        a is Some ==> a->Some_0@ == w[k],
{
}

/// The joined words are the words themselves, in order, with one space
/// before each word but the first.
pub proof fn law_join_spaced(ws: Seq<Seq<u8>>)
    ensures
        join_spaced(ws) == Seq::new(ws.len(), |i: int| if i == 0 { ws[i] } else { seq![0x20u8] + ws[i] }).flatten(),
    decreases ws.len(),
{
    let parts = Seq::new(ws.len(), |i: int| if i == 0 { ws[i] } else { seq![0x20u8] + ws[i] });
    if ws.len() == 0 {
        assert(parts =~= Seq::<Seq<u8>>::empty());
    } else if ws.len() == 1 {
        assert(parts =~= Seq::<Seq<u8>>::empty().push(ws[0]));
        Seq::<Seq<u8>>::empty().lemma_flatten_push(ws[0]);
        assert(ws[0] =~= Seq::<u8>::empty() + ws[0]);
    } else {
        let front = ws.drop_last();
        law_join_spaced(front);
        let fparts = Seq::new(front.len(), |i: int| if i == 0 { front[i] } else { seq![0x20u8] + front[i] });
        assert(parts =~= fparts.push(seq![0x20u8] + ws.last()));
        fparts.lemma_flatten_push(seq![0x20u8] + ws.last());
        assert(join_spaced(front).push(0x20u8) + ws.last() =~= join_spaced(front) + (seq![0x20u8] + ws.last()));
    }
}

/// Names the command that `word` asks for.
pub fn command_word(word: &str) -> (k: CommandWord)
    ensures
        k == word_kind(word@),
{
    if str_eq(word, "help") {
        CommandWord::Help
    } else if str_eq(word, "ver") {
        CommandWord::Ver
    } else if str_eq(word, "clear") {
        CommandWord::Clear
    } else if str_eq(word, "shutdown") {
        CommandWord::Shutdown
    } else if str_eq(word, "reboot") {
        CommandWord::Reboot
    } else if str_eq(word, "shellver") {
        CommandWord::ShellVer
    } else if str_eq(word, "ls") {
        CommandWord::Ls
    } else if str_eq(word, "mkdir") {
        CommandWord::Mkdir
    } else if str_eq(word, "cd") {
        CommandWord::Cd
    } else if str_eq(word, "pwd") {
        CommandWord::Pwd
    } else if str_eq(word, "create") {
        CommandWord::Create
    } else if str_eq(word, "write") {
        CommandWord::Write
    } else if str_eq(word, "cat") {
        CommandWord::Cat
    } else if str_eq(word, "rm") {
        CommandWord::Rm
    } else if str_eq(word, "yustupid") {
        CommandWord::Yustupid
    } else if str_eq(word, "sleep") {
        CommandWord::Sleep
    } else if str_eq(word, "mfetch") {
        CommandWord::Mfetch
    } else if str_eq(word, "prompt") {
        CommandWord::Prompt
    } else {
        CommandWord::Other
    }
}

/// Word `k` of `words`, owned, if there is one.
fn arg_at(words: &Vec<&str>, k: usize) -> (a: Option<String>)
    ensures
        same_arg(a, word_at(words@.map_values(|x: &str| x@), k as int)),
{
    if k < words.len() {
        Some(words[k].to_owned())
    } else {
        None
    }
}

/// The words of `words` from `k` on, joined by single spaces, as bytes.
fn join_from(words: &Vec<&str>, k: usize) -> (data: Vec<u8>)
    ensures
        data@ == join_spaced(Seq::new((if words@.len() > k { words@.len() - k } else { 0 }) as nat, |j: int| words@[k + j].spec_bytes())),
{
    let ghost wb = Seq::new((if words@.len() > k { words@.len() - k } else { 0 }) as nat, |j: int| words@[k + j].spec_bytes());
    let mut data: Vec<u8> = Vec::new();
    let mut i: usize = k;
    while i < words.len()
        invariant
            k <= i || words@.len() <= k,
            i <= words@.len() || words@.len() <= k,
            k <= words@.len() ==> k <= i <= words@.len(),
            words@.len() < k ==> i == k,
            wb == Seq::new((if words@.len() > k { words@.len() - k } else { 0 }) as nat, |j: int| words@[k + j].spec_bytes()),
            data@ == join_spaced(wb.take(if i >= k { (i - k) as int } else { 0 })),
        decreases words@.len() - i,
    {
        let ghost before = data@;
        let b = words[i].as_bytes();
        if i > k {
            data.push(0x20u8);
        }
        let mut j: usize = 0;
        let ghost mid = data@;
        while j < b.len()
            invariant
                0 <= j <= b@.len(),
                data@ == mid + b@.take(j as int),
            decreases b@.len() - j,
        {
            data.push(b[j]);
            proof {
                assert(b@.take(j + 1) =~= b@.take(j as int).push(b@[j as int]));
            }
            j = j + 1;
        }
        proof {
            let t = wb.take((i + 1 - k) as int);
            assert(t.drop_last() =~= wb.take((i - k) as int));
            assert(t.last() == b@);
            assert(b@.take(b@.len() as int) =~= b@);
            if i == k {
                assert(wb.take(0) =~= Seq::<Seq<u8>>::empty());
                assert(data@ =~= b@);
            }
        }
        i = i + 1;
    }
    proof {
        assert(wb.take(wb.len() as int) =~= wb);
    }
    data
}

/// Decides what a shell line asks for. The first word names the command;
/// the arguments are the words after it.
pub fn parse_command(line: &str) -> (c: Command)
    ensures
        ({
            let w = ws_words(line@);
            &&& (w.len() == 0 <==> c is Empty)
            &&& w.len() > 0 ==> kind_of(c) == word_kind(w[0])
            &&& (c matches Command::Ls(p) ==> p@ == (if w.len() > 1 { w[1] } else { Seq::<char>::empty() }))
            &&& (c matches Command::Mkdir(a) ==> same_arg(a, word_at(w, 1)))
            &&& (c matches Command::Cd(a) ==> same_arg(a, word_at(w, 1)))
            &&& (c matches Command::Create(a) ==> same_arg(a, word_at(w, 1)))
            &&& (c matches Command::Cat(a) ==> same_arg(a, word_at(w, 1)))
            &&& (c matches Command::Rm(a) ==> same_arg(a, word_at(w, 1)))
            &&& (c matches Command::Write(a, data) ==> same_arg(a, word_at(w, 1)) && data@ == join_spaced(words_bytes_from(w, 2)))
            &&& (c matches Command::Sleep(a) ==> match a {
                None => w.len() <= 1,
                Some(v) => w.len() > 1 && v == parse_u64_spec(encode_utf8(w[1])),
            })
            &&& (c matches Command::Unknown(name) ==> name@ == w[0])
        }),
{
    let words = split_whitespace(line);
    let ghost w = ws_words(line@);
    proof {
        assert(words@.map_values(|x: &str| x@) =~= w);
    }
    if words.len() == 0 {
        return Command::Empty;
    }
    let command = words[0];
    assert(command@ == w[0]) by {
        assert(words@.map_values(|x: &str| x@)[0] == w[0]);
    }
    match command_word(command) {
        CommandWord::Help => Command::Help,
        CommandWord::Ver => Command::Ver,
        CommandWord::Clear => Command::Clear,
        CommandWord::Shutdown => Command::Shutdown,
        CommandWord::Reboot => Command::Reboot,
        CommandWord::ShellVer => Command::ShellVer,
        CommandWord::Ls => {
            if words.len() > 1 {
                Command::Ls(words[1].to_owned())
            } else {
                Command::Ls(String::new())
            }
        },
        CommandWord::Mkdir => Command::Mkdir(arg_at(&words, 1)),
        CommandWord::Cd => Command::Cd(arg_at(&words, 1)),
        CommandWord::Pwd => Command::Pwd,
        CommandWord::Create => Command::Create(arg_at(&words, 1)),
        CommandWord::Write => {
            let name = arg_at(&words, 1);
            let data = join_from(&words, 2);
            proof {
                let left = Seq::new((if words@.len() > 2 { words@.len() - 2 } else { 0 }) as nat, |j: int| words@[2 + j].spec_bytes());
                assert forall|j: int| 0 <= j < left.len() implies left[j] == words_bytes_from(w, 2)[j] by {
                    assert(words@.map_values(|x: &str| x@)[2 + j] == w[2 + j]);
                }
                assert(left =~= words_bytes_from(w, 2));
            }
            Command::Write(name, data)
        },
        CommandWord::Cat => Command::Cat(arg_at(&words, 1)),
        CommandWord::Rm => Command::Rm(arg_at(&words, 1)),
        CommandWord::Yustupid => Command::Yustupid,
        CommandWord::Sleep => {
            if words.len() > 1 {
                proof {
                    assert(words@.map_values(|x: &str| x@)[1] == w[1]);
                }
                Command::Sleep(Some(parse_u64(words[1])))
            } else {
                Command::Sleep(None)
            }
        },
        CommandWord::Mfetch => Command::Mfetch,
        CommandWord::Prompt => Command::Prompt,
        CommandWord::Other => Command::Unknown(command.to_owned()),
    }
}

/// The first word of `line`, which the `prompt` command takes as the new
/// prompt.
pub fn first_word(line: &str) -> (word: Option<String>)
    ensures
        same_arg(word, word_at(ws_words(line@), 0)),
{
    let words = split_whitespace(line);
    proof {
        assert(words@.map_values(|x: &str| x@) =~= ws_words(line@));
    }
    arg_at(&words, 0)
}

} // verus!
