//! Service strings of commands that a device runs.

use crate::text::{chars_of, string_views};
use vstd::prelude::*;

verus! {

/// Every `'` of `s` replaced by `'\''`.
pub open spec fn quote_body(s: Seq<char>) -> Seq<char>
    decreases s.len(),
{
    if s.len() == 0 {
        seq![]
    } else if s[0] == '\'' {
        seq!['\'', '\\', '\'', '\''] + quote_body(s.subrange(1, s.len() as int))
    } else {
        seq![s[0]] + quote_body(s.subrange(1, s.len() as int))
    }
}

/// `s` between single quotes, each quote inside it closed, escaped and opened again.
pub open spec fn escaped(s: Seq<char>) -> Seq<char> {
    seq!['\''] + quote_body(s) + seq!['\'']
}

/// What a shell makes of `s`, from inside single quotes or from outside: the word that it
/// spells, where quoting is by single quotes and by backslashes outside them. `None` where
/// a quote stays open, a backslash escapes nothing, or an unquoted blank ends the word.
pub open spec fn shell_word(s: Seq<char>, quoted: bool) -> Option<Seq<char>>
    decreases s.len(),
{
    if s.len() == 0 {
        if quoted {
            None
        } else {
            Some(seq![])
        }
    } else {
        let rest = s.subrange(1, s.len() as int);
        if s[0] == '\'' {
            shell_word(rest, !quoted)
        } else if quoted {
            match shell_word(rest, true) {
                Some(w) => Some(seq![s[0]] + w),
                None => None,
            }
        } else if s[0] == '\\' && s.len() >= 2 {
            match shell_word(s.subrange(2, s.len() as int), false) {
                Some(w) => Some(seq![s[1]] + w),
                None => None,
            }
        } else {
            None
        }
    }
}

proof fn lemma_quote_body_word(s: Seq<char>)
    ensures
        shell_word(quote_body(s) + seq!['\''], true) == Some(s),
    decreases s.len(),
{
    let t = quote_body(s) + seq!['\''];
    if s.len() == 0 {
        assert(t =~= seq!['\'']);
        assert(t.subrange(1, 1) =~= seq![]);
        assert(shell_word(t.subrange(1, 1), false) == Some(Seq::<char>::empty()));
        assert(s =~= seq![]);
    } else {
        let rest = s.subrange(1, s.len() as int);
        let u = quote_body(rest) + seq!['\''];
        lemma_quote_body_word(rest);
        if s[0] == '\'' {
            assert(t =~= seq!['\'', '\\', '\'', '\''] + u);
            let t1 = t.subrange(1, t.len() as int);
            assert(t1 =~= seq!['\\', '\'', '\''] + u);
            let t3 = t1.subrange(2, t1.len() as int);
            assert(t3 =~= seq!['\''] + u);
            assert(t3.subrange(1, t3.len() as int) =~= u);
            assert(shell_word(t3, false) == Some(rest));
            assert(seq!['\''] + rest =~= s);
            assert(shell_word(t1, false) == Some(s));
        } else {
            assert(t =~= seq![s[0]] + u);
            assert(t.subrange(1, t.len() as int) =~= u);
            assert(seq![s[0]] + rest =~= s);
        }
    }
}

/// A shell reads an escaped argument back as one word, the argument.
pub proof fn escaping_is_undone_by_the_shell(s: Seq<char>)
    ensures
        shell_word(escaped(s), false) == Some(s),
{
    let e = escaped(s);
    assert(e.subrange(1, e.len() as int) =~= quote_body(s) + seq!['\'']);
    lemma_quote_body_word(s);
}

/// Wraps an argument in single quotes; every embedded `'` becomes `'\''` (close quote,
/// escaped quote, reopen quote).
pub fn escape_arg(s: &str) -> (r: String)
    ensures
        r@ == escaped(s@),
{
    let chars = chars_of(s);
    let mut result = String::new();
    result.push('\'');
    let mut i: usize = 0;
    assert(chars@.subrange(0, chars@.len() as int) =~= chars@);
    assert(seq!['\''] + quote_body(chars@) =~= result@ + quote_body(chars@));
    while i < chars.len()
        invariant
            i <= chars@.len(),
            result@ + quote_body(chars@.subrange(i as int, chars@.len() as int)) == seq!['\'']
                + quote_body(chars@),
        decreases chars@.len() - i,
    {
        let ghost before = result@;
        let ghost rest = chars@.subrange(i as int, chars@.len() as int);
        let c: char = chars[i];
        if c == '\'' {
            result.append("'\\''");
            proof {
                reveal_strlit("'\\''");
                assert("'\\''"@ =~= seq!['\'', '\\', '\'', '\'']);
            }
        } else {
            result.push(c);
        }
        i = i + 1;
        proof {
            assert(rest.subrange(1, rest.len() as int) =~= chars@.subrange(
                i as int,
                chars@.len() as int,
            ));
            assert(result@ + quote_body(chars@.subrange(i as int, chars@.len() as int)) =~= before
                + quote_body(rest));
        }
    }
    result.push('\'');
    assert(result@ =~= escaped(s@));
    result
}

/// The arguments from index `i` on, each escaped and with a blank before it.
pub open spec fn escaped_args(args: Seq<Seq<char>>, i: int) -> Seq<char>
    decreases args.len() - i,
{
    if i < 0 || i >= args.len() {
        seq![]
    } else {
        seq![' '] + escaped(args[i]) + escaped_args(args, i + 1)
    }
}

/// `exec:`, the program as it stands, and the escaped arguments.
pub open spec fn exec_service(args: Seq<Seq<char>>) -> Seq<char> {
    if args.len() == 0 {
        "exec:"@
    } else {
        "exec:"@ + args[0] + escaped_args(args, 1)
    }
}

/// The service that runs a program with a raw byte stream: `exec:` and the program name as
/// it stands, then every following argument escaped, with blanks between them.
pub fn exec_service_string(args: &[String]) -> (r: String)
    ensures
        r@ == exec_service(string_views(args@)),
{
    let mut cmd = String::new();
    cmd.append("exec:");
    assert(cmd@ =~= "exec:"@);
    if args.len() == 0 {
        return cmd;
    }
    let ghost views = string_views(args@);
    cmd.append(args[0].as_str());
    let mut i: usize = 1;
    while i < args.len()
        invariant
            1 <= i <= args@.len(),
            views == string_views(args@),
            cmd@ + escaped_args(views, i as int) == exec_service(views),
        decreases args@.len() - i,
    {
        let ghost before = cmd@;
        cmd.push(' ');
        let e = escape_arg(args[i].as_str());
        cmd.append(e.as_str());
        i = i + 1;
        assert(cmd@ + escaped_args(views, i as int) =~= before + escaped_args(views, i - 1));
    }
    assert(cmd@ =~= exec_service(views));
    cmd
}

proof fn lemma_args_push(args: Seq<Seq<char>>, x: Seq<char>, i: int)
    requires
        0 <= i <= args.len(),
    ensures
        escaped_args(args.push(x), i) == escaped_args(args, i) + seq![' '] + escaped(x),
    decreases args.len() - i,
{
    let all = args.push(x);
    if i == args.len() {
        assert(escaped_args(all, i + 1) =~= Seq::<char>::empty());
        assert(escaped_args(all, i) =~= seq![' '] + escaped(x));
        assert(escaped_args(args, i) =~= Seq::<char>::empty());
        assert(escaped_args(args, i) + seq![' '] + escaped(x) =~= seq![' '] + escaped(x));
    } else {
        lemma_args_push(args, x, i + 1);
        assert(escaped_args(all, i) =~= escaped_args(args, i) + seq![' '] + escaped(x));
    }
}

/// A command is its first word as it stands, and each further word behind a space, so quoted that
/// the shell reads it as that word.
pub proof fn every_word_is_passed(args: Seq<Seq<char>>, program: Seq<char>, x: Seq<char>)
    requires
        args.len() > 0,
    ensures
        exec_service(Seq::empty()) == "exec:"@,
        exec_service(seq![program]) == "exec:"@ + program,
        exec_service(args.push(x)) == exec_service(args) + seq![' '] + escaped(x),
        shell_word(escaped(x), false) == Some(x),
{
    lemma_args_push(args, x, 1);
    escaping_is_undone_by_the_shell(x);
    assert(args.push(x)[0] == args[0]);
    assert(exec_service(args.push(x)) =~= exec_service(args) + seq![' '] + escaped(x));
    assert(escaped_args(seq![program], 1) =~= Seq::<char>::empty());
    assert(exec_service(seq![program]) =~= "exec:"@ + program);
}

} // verus!
