use vstd::prelude::*;

use crate::error::SpoutError;
use crate::text::{chars_of, equals_literal};

verus! {

/// The clipboard programs that may be run outside expert mode.
pub open spec fn allowed_clipboard_bin(bin: Seq<char>) -> bool {
    bin == "wl-copy"@ || bin == "xclip"@ || bin == "xsel"@
}

/// Whether `bin` names a path rather than a program.
pub open spec fn is_path_like(bin: Seq<char>) -> bool {
    exists|i: int| 0 <= i < bin.len() && (bin[i] == '/' || bin[i] == '\\')
}

/// Whether the clipboard command `cmd` may be run: `Ok(false)` when it is
/// empty and there is nothing to run, `Ok(true)` when it may run, and an
/// error when, outside expert mode, its program is a path or not one of
/// `wl-copy`, `xclip`, `xsel`.
pub fn check_clipboard_command(cmd: &Vec<String>, yolo: bool) -> (res: Result<bool, SpoutError>)
    ensures
        cmd@.len() == 0 ==> res == Ok::<bool, SpoutError>(false),
        cmd@.len() > 0 && yolo ==> res == Ok::<bool, SpoutError>(true),
        cmd@.len() > 0 && !yolo && is_path_like(cmd@[0]@) ==> res matches Err(
            SpoutError::ClipboardPathNotAllowed,
        ),
        cmd@.len() > 0 && !yolo && !is_path_like(cmd@[0]@) && !allowed_clipboard_bin(cmd@[0]@)
            ==> (res matches Err(SpoutError::ClipboardBinaryNotAllowed(b)) && b@ == cmd@[0]@),
        cmd@.len() > 0 && !yolo && !is_path_like(cmd@[0]@) && allowed_clipboard_bin(cmd@[0]@)
            ==> res == Ok::<bool, SpoutError>(true),
        cmd@.len() > 0 && !yolo && (cmd@[0]@ == "wl-copy"@ || cmd@[0]@ == "xclip"@ || cmd@[0]@
            == "xsel"@) ==> res == Ok::<bool, SpoutError>(true),
{
    if cmd.len() == 0 {
        return Ok(false);
    }
    if yolo {
        return Ok(true);
    }
    let bin = &cmd[0];
    let v = chars_of(bin.as_str());
    let mut i: usize = 0;
    while i < v.len()
        invariant
            i <= v@.len(),
            cmd@.len() > 0,
            !yolo,
            v@ == cmd@[0]@,
            forall|j: int| 0 <= j < i ==> v@[j] != '/' && v@[j] != '\\',
        decreases v@.len() - i,
    {
        if v[i] == '/' || v[i] == '\\' {
            assert(is_path_like(cmd@[0]@)) by {
                assert(v@[i as int] == '/' || v@[i as int] == '\\');
            }
            proof {
                lemma_clipboard_programs(cmd@[0]@);
            }
            return Err(SpoutError::ClipboardPathNotAllowed);
        }
        i += 1;
    }
    proof {
        lemma_clipboard_programs(cmd@[0]@);
    }
    if equals_literal(v.as_slice(), "wl-copy") || equals_literal(v.as_slice(), "xclip")
        || equals_literal(v.as_slice(), "xsel") {
        return Ok(true);
    }
    Err(SpoutError::ClipboardBinaryNotAllowed(bin.clone()))
}

/// Outside expert mode the programs that may be run are exactly `wl-copy`,
/// `xclip` and `xsel`: a command naming one of them is accepted, and any
/// other program, or any path (a name with `/` or `\\` in it), is refused.
pub proof fn lemma_clipboard_programs(bin: Seq<char>)
    ensures
        (!is_path_like(bin) && allowed_clipboard_bin(bin)) <==> (bin == "wl-copy"@ || bin
            == "xclip"@ || bin == "xsel"@),
        is_path_like(bin) <==> exists|i: int|
            0 <= i < bin.len() && (#[trigger] bin[i] == '/' || bin[i] == '\\'),
{
    reveal_strlit("wl-copy");
    reveal_strlit("xclip");
    reveal_strlit("xsel");
    if bin == "wl-copy"@ || bin == "xclip"@ || bin == "xsel"@ {
        assert(!is_path_like(bin)) by {
            if is_path_like(bin) {
                let i = choose|i: int| 0 <= i < bin.len() && (bin[i] == '/' || bin[i] == '\\');
                assert(bin[i] != '/' && bin[i] != '\\');
            }
        }
    }
}

} // verus!
