//! The computable side of running a linter.
//!
//! Spawning the configured command is I/O and happens outside the
//! library; what is computed around it is verified here: the argument
//! list with every `{file}` placeholder replaced by the target file's
//! path, and the choice and decoding of the raw output the command left
//! on its two streams.

use crate::errors::LintError;
use vstd::prelude::*;
use vstd::string::*;
use vstd::utf8::encode_utf8;
use vstd::utf8::valid_utf8;

verus! {

/// The placeholder an argument template marks the file's place with.
pub open spec fn placeholder() -> Seq<char> {
    seq!['{', 'f', 'i', 'l', 'e', '}']
}

/// `s` with every non-overlapping occurrence of the placeholder
/// replaced by `file`, scanning left to right.
pub open spec fn spec_subst(s: Seq<char>, file: Seq<char>) -> Seq<char>
    decreases s.len(),
{
    if s.len() < 6 {
        s
    } else if s.subrange(0, 6) == placeholder() {
        file + spec_subst(s.skip(6), file)
    } else {
        seq![s[0]] + spec_subst(s.drop_first(), file)
    }
}

/// Does the placeholder stand at position `i` of `arg`?
fn placeholder_at(arg: &str, i: usize) -> (b: bool)
    requires
        i + 6 <= arg@.len(),
        arg@.len() <= usize::MAX,
    ensures
        b == (arg@.subrange(i as int, i as int + 6) == placeholder()),
{
    let b = arg.get_char(i) == '{' && arg.get_char(i + 1) == 'f' && arg.get_char(i + 2) == 'i'
        && arg.get_char(i + 3) == 'l' && arg.get_char(i + 4) == 'e' && arg.get_char(i + 5) == '}';
    proof {
        let sub = arg@.subrange(i as int, i as int + 6);
        if b {
            assert(sub =~= placeholder());
        } else {
            assert(sub[0] == arg@[i as int]);
            assert(sub[1] == arg@[i as int + 1]);
            assert(sub[2] == arg@[i as int + 2]);
            assert(sub[3] == arg@[i as int + 3]);
            assert(sub[4] == arg@[i as int + 4]);
            assert(sub[5] == arg@[i as int + 5]);
        }
    }
    b
}

/// One argument template with every `{file}` replaced by the path.
#[verifier::loop_isolation(false)]
pub fn render_arg(arg: &str, file: &str) -> (r: String)
    ensures
        r@ == spec_subst(arg@, file@),
{
    let n = arg.unicode_len();
    let mut out = String::new();
    let mut i: usize = 0;
    proof {
        assert(arg@.skip(0) =~= arg@);
    }
    while i < n
        invariant
            i <= n,
            out@ + spec_subst(arg@.skip(i as int), file@) == spec_subst(arg@, file@),
        decreases n - i,
    {
        let ghost rest = arg@.skip(i as int);
        if n - i >= 6 && placeholder_at(arg, i) {
            proof {
                assert(rest.subrange(0, 6) =~= arg@.subrange(i as int, i as int + 6));
                assert(rest.skip(6) =~= arg@.skip(i as int + 6));
            }
            out.append(file);
            i = i + 6;
        } else {
            proof {
                if rest.len() >= 6 {
                    assert(rest.subrange(0, 6) =~= arg@.subrange(i as int, i as int + 6));
                }
                assert(rest[0] == arg@[i as int]);
                assert(rest.drop_first() =~= arg@.skip(i as int + 1));
            }
            let piece = arg.substring_char(i, i + 1);
            proof {
                assert(piece@ =~= seq![arg@[i as int]]);
            }
            out.append(piece);
            i = i + 1;
        }
    }
    proof {
        assert(arg@.skip(n as int) =~= Seq::<char>::empty());
        assert(out@ + Seq::<char>::empty() =~= out@);
    }
    out
}

/// Every argument template of a linter, rendered for one file.
pub open spec fn spec_subst_all(args: Seq<Seq<char>>, file: Seq<char>) -> Seq<Seq<char>> {
    Seq::new(args.len(), |i: int| spec_subst(args[i], file))
}

/// The full argument list for one invocation: each template with every
/// `{file}` replaced by the target file's path.
#[verifier::loop_isolation(false)]
pub fn render_args(args: &Vec<String>, file: &str) -> (r: Vec<String>)
    ensures
        r.deep_view() == spec_subst_all(args.deep_view(), file@),
{
    let mut r: Vec<String> = Vec::new();
    let mut i: usize = 0;
    while i < args.len()
        invariant
            i <= args@.len(),
            r.deep_view() =~= spec_subst_all(args.deep_view(), file@).take(i as int),
        decreases args@.len() - i,
    {
        let rendered = render_arg(args[i].as_str(), file);
        r.push(rendered);
        i = i + 1;
    }
    proof {
        assert(spec_subst_all(args.deep_view(), file@).take(args@.len() as int) =~= spec_subst_all(
            args.deep_view(),
            file@,
        ));
    }
    r
}

/// Relies on String::from_utf8: it accepts exactly the byte sequences
/// that are valid UTF-8, and decodes them to the characters they encode.
#[verifier::external_body]
fn utf8_to_string(bytes: Vec<u8>) -> (r: Option<String>)
    ensures
        r is Some <==> valid_utf8(bytes@),
        r is Some ==> encode_utf8(r.unwrap()@) == bytes@,
{
    String::from_utf8(bytes).ok()
}

/// The raw text of one finished invocation: the standard-output bytes
/// when there are any, else the standard-error bytes — many lint tools
/// report on either stream, and the exit status never gates this — and
/// a parse error when those bytes are not valid text.
pub fn choose_output(stdout: Vec<u8>, stderr: Vec<u8>) -> (r: Result<String, LintError>)
    ensures
        r is Ok <==> valid_utf8(
            if stdout@.len() > 0 {
                stdout@
            } else {
                stderr@
            },
        ),
        r is Ok ==> encode_utf8(r.unwrap()@) == (if stdout@.len() > 0 {
            stdout@
        } else {
            stderr@
        }),
        r is Err ==> r.unwrap_err() == LintError::Parse,
{
    let chosen = if stdout.len() > 0 {
        stdout
    } else {
        stderr
    };
    match utf8_to_string(chosen) {
        Some(s) => Ok(s),
        None => Err(LintError::Parse),
    }
}

} // verus!
