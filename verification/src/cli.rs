//! Command-line flags.

use vstd::prelude::*;
use crate::render::Font;
use crate::player::strings_view;
use crate::text::{chars_of, push_str, same_chars};

verus! {

/// The settings the flags choose.
#[derive(Debug, Clone)]
pub struct Args {
    pub font: Font,
    pub karaoke: bool,
    pub refresh_ms: u64,
    pub show_header: bool,
    pub theme_path: Option<String>,
}

/// What the command line asks for.
#[derive(Debug, Clone)]
pub enum ArgsOutcome {
    /// Run with these settings.
    Run(Args),
    /// Print the help text and exit successfully.
    Help,
    /// Print the version and exit successfully.
    Version,
}

/// The settings as plain values: font, karaoke, refresh, header, theme path.
pub type ArgsView = (Font, bool, u64, bool, Option<Seq<char>>);

/// What the command line asks for, as plain values.
pub enum ParsedArgs {
    Run(ArgsView),
    Help,
    Version,
}

/// The settings before any flag: block font, karaoke on, 50 ms refresh,
/// the status line shown, no theme file.
pub open spec fn default_args() -> ArgsView {
    (Font::Block, true, 50, true, None)
}

/// The value of a decimal digit string.
pub open spec fn digits_value(s: Seq<char>) -> nat
    decreases s.len(),
{
    if s.len() == 0 {
        0
    } else {
        digits_value(s.drop_last()) * 10 + (s.last() as u32 - 48) as nat
    }
}

/// Every character of `d` is a decimal digit.
pub open spec fn all_decimal(d: Seq<char>) -> bool {
    forall|i: int| 0 <= i < d.len() ==> '0' <= #[trigger] d[i] <= '9'
}

/// `u64::from_str`: an optional `+`, then at least one decimal digit, with
/// a value that fits in 64 bits.
pub open spec fn parse_u64(s: Seq<char>) -> Option<u64> {
    let d = if s.len() > 0 && s[0] == '+' {
        s.drop_first()
    } else {
        s
    };
    if d.len() > 0 && all_decimal(d) && digits_value(d) <= u64::MAX {
        Some(digits_value(d) as u64)
    } else {
        None
    }
}

/// The flags `rest` applied in order to `st`: `Ok` with what the command
/// line asks for, or `Err` with the message for the first bad flag.
pub open spec fn parse_from(st: ArgsView, rest: Seq<Seq<char>>) -> Result<ParsedArgs, Seq<char>>
    decreases rest.len(),
{
    if rest.len() == 0 {
        Ok(ParsedArgs::Run(st))
    } else {
        let a = rest[0];
        let more = rest.drop_first();
        if a == "--compact"@ || a == "-c"@ {
            parse_from((Font::Compact, st.1, st.2, st.3, st.4), more)
        } else if a == "--block"@ || a == "-b"@ {
            parse_from((Font::Block, st.1, st.2, st.3, st.4), more)
        } else if a == "--no-karaoke"@ {
            parse_from((st.0, false, st.2, st.3, st.4), more)
        } else if a == "--no-header"@ {
            parse_from((st.0, st.1, st.2, false, st.4), more)
        } else if a == "--refresh"@ {
            if more.len() == 0 {
                Err("--refresh needs a value (ms)"@)
            } else {
                match parse_u64(more[0]) {
                    None => Err("bad --refresh value"@),
                    Some(ms) => if ms < 10 {
                        Err("--refresh minimum is 10ms"@)
                    } else {
                        parse_from((st.0, st.1, ms, st.3, st.4), more.drop_first())
                    },
                }
            }
        } else if a == "--theme"@ {
            if more.len() == 0 {
                Err("--theme needs a file path"@)
            } else {
                parse_from((st.0, st.1, st.2, st.3, Some(more[0])), more.drop_first())
            }
        } else if a == "--help"@ || a == "-h"@ {
            Ok(ParsedArgs::Help)
        } else if a == "--version"@ || a == "-V"@ {
            Ok(ParsedArgs::Version)
        } else {
            Err("unknown argument: "@ + a)
        }
    }
}


proof fn lemma_digits_value_grows(s: Seq<char>, k: int)
    requires
        0 <= k <= s.len(),
        forall|i: int| 0 <= i < s.len() ==> '0' <= #[trigger] s[i] <= '9',
    ensures
        digits_value(s.take(k)) <= digits_value(s),
    decreases s.len() - k,
{
    if k < s.len() {
        let t = s.drop_last();
        assert forall|i: int| 0 <= i < t.len() implies '0' <= #[trigger] t[i] <= '9' by {
            assert(t[i] == s[i]);
        }
        lemma_digits_value_grows(t, k);
        assert(t.take(k) =~= s.take(k));
    } else {
        assert(s.take(k) =~= s);
    }
}

/// `u64::from_str`.
fn parse_u64_exec(s: &str) -> (r: Option<u64>)
    ensures
        r == parse_u64(s@),
{
    let v = chars_of(s);
    let lo: usize = if v.len() > 0 && v[0] == '+' { 1 } else { 0 };
    let ghost d = v@.skip(lo as int);
    assert(d =~= if s@.len() > 0 && s@[0] == '+' { s@.drop_first() } else { s@ });
    if lo == v.len() {
        return None;
    }
    let mut acc: u64 = 0;
    let mut j = lo;
    assert(d.take(0) =~= Seq::<char>::empty());
    while j < v.len()
        invariant
            lo <= j <= v@.len(),
            lo < v@.len(),
            d == v@.skip(lo as int),
            d =~= if s@.len() > 0 && s@[0] == '+' { s@.drop_first() } else { s@ },
            forall|i: int| 0 <= i < j - lo ==> '0' <= #[trigger] d[i] <= '9',
            acc == digits_value(d.take(j - lo)),
        decreases v@.len() - j,
    {
        let c = v[j];
        assert(d[j - lo] == c);
        if !('0' <= c && c <= '9') {
            assert(!('0' <= d[j - lo] <= '9'));
            assert(!all_decimal(d));
            return None;
        }
        assert(d.take(j - lo + 1).drop_last() =~= d.take(j - lo));
        assert(d.take(j - lo + 1).last() == c);
        let digit = (c as u32 - 48) as u64;
        match acc.checked_mul(10) {
            Some(m) => match m.checked_add(digit) {
                Some(x) => acc = x,
                None => {
                    proof {
                        if all_decimal(d) {
                            lemma_digits_value_grows(d, j - lo + 1);
                        }
                    }
                    return None;
                },
            },
            None => {
                proof {
                    if all_decimal(d) {
                        lemma_digits_value_grows(d, j - lo + 1);
                    }
                }
                return None;
            },
        }
        j = j + 1;
    }
    assert(d.take(v@.len() - lo) =~= d);
    Some(acc)
}


impl Args {
    /// The settings as plain values.
    pub open spec fn view_args(&self) -> ArgsView {
        (self.font, self.karaoke, self.refresh_ms, self.show_header, match self.theme_path {
            Some(p) => Some(p@),
            None => None,
        })
    }
}

/// The flags read from the command line (without the program name).
///
/// `--compact`/`-c` and `--block`/`-b` choose the font, `--no-karaoke`
/// colors whole lines, `--no-header` hides the status line, `--refresh N`
/// redraws every N ms (at least 10), `--theme FILE` names a theme file;
/// `--help`/`-h` and `--version`/`-V` stop reading at once.
pub fn parse_args(args: &Vec<String>) -> (r: Result<ArgsOutcome, String>)
    ensures
        match (r, parse_from(default_args(), strings_view(args@))) {
            (Ok(ArgsOutcome::Run(a)), Ok(ParsedArgs::Run(v))) => a.view_args() == v,
            (Ok(ArgsOutcome::Help), Ok(ParsedArgs::Help)) => true,
            (Ok(ArgsOutcome::Version), Ok(ParsedArgs::Version)) => true,
            (Err(e), Err(m)) => e@ == m,
            _ => false,
        },
{
    let ghost all = strings_view(args@);
    let ghost goal = parse_from(default_args(), all);
    let mut a = Args {
        font: Font::Block,
        karaoke: true,
        refresh_ms: 50,
        show_header: true,
        theme_path: None,
    };
    let n = args.len();
    let mut i: usize = 0;
    assert(all.skip(0) =~= all);
    while i < n
        invariant
            i <= n == args@.len(),
            all == strings_view(args@),
            goal == parse_from(default_args(), all),
            goal == parse_from(a.view_args(), all.skip(i as int)),
        decreases n - i,
    {
        let ghost rest = all.skip(i as int);
        assert(rest[0] == args@[i as int]@);
        assert(rest.drop_first() =~= all.skip(i + 1));
        let arg = args[i].as_str();
        if same_chars(arg, "--compact") || same_chars(arg, "-c") {
            a.font = Font::Compact;
        } else if same_chars(arg, "--block") || same_chars(arg, "-b") {
            a.font = Font::Block;
        } else if same_chars(arg, "--no-karaoke") {
            a.karaoke = false;
        } else if same_chars(arg, "--no-header") {
            a.show_header = false;
        } else if same_chars(arg, "--refresh") {
            if i + 1 >= n {
                let mut m = String::new();
                push_str(&mut m, "--refresh needs a value (ms)");
                return Err(m);
            }
            assert(rest.drop_first()[0] == args@[i + 1]@);
            assert(rest.drop_first().drop_first() =~= all.skip(i + 2));
            match parse_u64_exec(args[i + 1].as_str()) {
                None => {
                    let mut m = String::new();
                    push_str(&mut m, "bad --refresh value");
                    return Err(m);
                },
                Some(ms) => {
                    if ms < 10 {
                        let mut m = String::new();
                        push_str(&mut m, "--refresh minimum is 10ms");
                        return Err(m);
                    }
                    a.refresh_ms = ms;
                },
            }
            i = i + 1;
        } else if same_chars(arg, "--theme") {
            if i + 1 >= n {
                let mut m = String::new();
                push_str(&mut m, "--theme needs a file path");
                return Err(m);
            }
            assert(rest.drop_first()[0] == args@[i + 1]@);
            assert(rest.drop_first().drop_first() =~= all.skip(i + 2));
            a.theme_path = Some(args[i + 1].clone());
            i = i + 1;
        } else if same_chars(arg, "--help") || same_chars(arg, "-h") {
            return Ok(ArgsOutcome::Help);
        } else if same_chars(arg, "--version") || same_chars(arg, "-V") {
            return Ok(ArgsOutcome::Version);
        } else {
            let mut m = String::new();
            push_str(&mut m, "unknown argument: ");
            push_str(&mut m, arg);
            return Err(m);
        }
        i = i + 1;
    }
    assert(all.skip(n as int) =~= Seq::<Seq<char>>::empty());
    Ok(ArgsOutcome::Run(a))
}

/// What each flag does to the settings, whatever follows it: the font
/// flags choose the font, `--no-karaoke` turns karaoke off, `--no-header`
/// hides the status line, `--refresh N` (N at least 10) sets the refresh,
/// `--theme F` names the theme file, and `--help` / `--version` stop at
/// once. Nothing else changes.
pub proof fn lemma_flag_effects(st: ArgsView, rest: Seq<Seq<char>>, v: Seq<char>)
    ensures
        parse_from(st, seq!["--compact"@] + rest) == parse_from(
            (Font::Compact, st.1, st.2, st.3, st.4),
            rest,
        ),
        parse_from(st, seq!["-c"@] + rest) == parse_from((Font::Compact, st.1, st.2, st.3, st.4), rest),
        parse_from(st, seq!["--block"@] + rest) == parse_from(
            (Font::Block, st.1, st.2, st.3, st.4),
            rest,
        ),
        parse_from(st, seq!["-b"@] + rest) == parse_from((Font::Block, st.1, st.2, st.3, st.4), rest),
        parse_from(st, seq!["--no-karaoke"@] + rest) == parse_from(
            (st.0, false, st.2, st.3, st.4),
            rest,
        ),
        parse_from(st, seq!["--no-header"@] + rest) == parse_from(
            (st.0, st.1, st.2, false, st.4),
            rest,
        ),
        parse_from(st, seq!["--theme"@, v] + rest) == parse_from(
            (st.0, st.1, st.2, st.3, Some(v)),
            rest,
        ),
        v.len() > 0 && (forall|i: int| 0 <= i < v.len() ==> '0' <= #[trigger] v[i] <= '9') && 10
            <= digits_value(v) <= u64::MAX ==> parse_from(st, seq!["--refresh"@, v] + rest)
            == parse_from((st.0, st.1, digits_value(v) as u64, st.3, st.4), rest),
        parse_from(st, seq!["--help"@] + rest) == Ok::<ParsedArgs, Seq<char>>(ParsedArgs::Help),
        parse_from(st, seq!["--version"@] + rest) == Ok::<ParsedArgs, Seq<char>>(
            ParsedArgs::Version,
        ),
{
    reveal_strlit("--compact");
    reveal_strlit("-c");
    reveal_strlit("--block");
    reveal_strlit("-b");
    reveal_strlit("--no-karaoke");
    reveal_strlit("--no-header");
    reveal_strlit("--refresh");
    reveal_strlit("--theme");
    reveal_strlit("--help");
    reveal_strlit("-h");
    reveal_strlit("--version");
    reveal_strlit("-V");
    assert("-c"@.len() != "--compact"@.len());
    assert("--block"@.len() != "--compact"@.len() && "--block"@.len() != "-c"@.len());
    assert("-b"@.len() != "--compact"@.len() && "-b"@[1] != "-c"@[1] && "-b"@.len() != "--block"@.len());
    assert("--no-karaoke"@.len() != "--compact"@.len() && "--no-karaoke"@.len() != "-c"@.len() && "--no-karaoke"@.len() != "--block"@.len() && "--no-karaoke"@.len() != "-b"@.len());
    assert("--no-header"@.len() != "--compact"@.len() && "--no-header"@.len() != "-c"@.len() && "--no-header"@.len() != "--block"@.len() && "--no-header"@.len() != "-b"@.len() && "--no-header"@.len() != "--no-karaoke"@.len());
    assert("--refresh"@[2] != "--compact"@[2] && "--refresh"@.len() != "-c"@.len() && "--refresh"@.len() != "--block"@.len() && "--refresh"@.len() != "-b"@.len() && "--refresh"@.len() != "--no-karaoke"@.len() && "--refresh"@.len() != "--no-header"@.len());
    assert("--theme"@.len() != "--compact"@.len() && "--theme"@.len() != "-c"@.len() && "--theme"@[2] != "--block"@[2] && "--theme"@.len() != "-b"@.len() && "--theme"@.len() != "--no-karaoke"@.len() && "--theme"@.len() != "--no-header"@.len() && "--theme"@.len() != "--refresh"@.len());
    assert("--help"@.len() != "--compact"@.len() && "--help"@.len() != "-c"@.len() && "--help"@.len() != "--block"@.len() && "--help"@.len() != "-b"@.len() && "--help"@.len() != "--no-karaoke"@.len() && "--help"@.len() != "--no-header"@.len() && "--help"@.len() != "--refresh"@.len() && "--help"@.len() != "--theme"@.len());
    assert("--version"@[2] != "--compact"@[2] && "--version"@.len() != "-c"@.len() && "--version"@.len() != "--block"@.len() && "--version"@.len() != "-b"@.len() && "--version"@.len() != "--no-karaoke"@.len() && "--version"@.len() != "--no-header"@.len() && "--version"@[2] != "--refresh"@[2] && "--version"@.len() != "--theme"@.len() && "--version"@.len() != "--help"@.len() && "--version"@.len() != "-h"@.len());
    assert((seq!["--compact"@] + rest)[0] == "--compact"@);
    assert((seq!["--compact"@] + rest).drop_first() =~= rest);
    assert((seq!["-c"@] + rest)[0] == "-c"@);
    assert((seq!["-c"@] + rest).drop_first() =~= rest);
    assert((seq!["--block"@] + rest)[0] == "--block"@);
    assert((seq!["--block"@] + rest).drop_first() =~= rest);
    assert((seq!["-b"@] + rest)[0] == "-b"@);
    assert((seq!["-b"@] + rest).drop_first() =~= rest);
    assert((seq!["--no-karaoke"@] + rest)[0] == "--no-karaoke"@);
    assert((seq!["--no-karaoke"@] + rest).drop_first() =~= rest);
    assert((seq!["--no-header"@] + rest)[0] == "--no-header"@);
    assert((seq!["--no-header"@] + rest).drop_first() =~= rest);
    assert((seq!["--refresh"@, v] + rest)[0] == "--refresh"@);
    assert((seq!["--refresh"@, v] + rest).drop_first()[0] == v);
    assert((seq!["--refresh"@, v] + rest).drop_first().drop_first() =~= rest);
    assert((seq!["--theme"@, v] + rest)[0] == "--theme"@);
    assert((seq!["--theme"@, v] + rest).drop_first()[0] == v);
    assert((seq!["--theme"@, v] + rest).drop_first().drop_first() =~= rest);
    assert((seq!["--help"@] + rest)[0] == "--help"@);
    assert((seq!["--help"@] + rest).drop_first() =~= rest);
    assert((seq!["--version"@] + rest)[0] == "--version"@);
    assert((seq!["--version"@] + rest).drop_first() =~= rest);
    if v.len() > 0 && (forall|i: int| 0 <= i < v.len() ==> '0' <= #[trigger] v[i] <= '9') && 10
        <= digits_value(v) <= u64::MAX {
        assert(v[0] != '+');
        assert(all_decimal(v));
        assert(parse_u64(v) == Some(digits_value(v) as u64));
    }
}

} // verus!
