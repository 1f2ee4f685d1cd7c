//! Images pasted from the clipboard: checking the pixel buffer, naming the saved file and
//! linking it from the note.
use vstd::prelude::*;
use crate::text::{chars_of, dec, extend_str, push_decimal, string_of};

verus! {

/// How one character of a file path appears in a Markdown link: backslashes become
/// slashes and spaces `%20`.
pub open spec fn link_char(c: char) -> Seq<char> {
    if c == '\\' {
        seq!['/']
    } else if c == ' ' {
        seq!['%', '2', '0']
    } else {
        seq![c]
    }
}

/// A file path as it appears in a Markdown link.
pub open spec fn link_path(s: Seq<char>) -> Seq<char>
    decreases s.len(),
{
    if s.len() == 0 {
        seq![]
    } else {
        link_path(s.drop_last()) + link_char(s.last())
    }
}

/// The Markdown image link to the file `path`.
pub open spec fn image_link(path: Seq<char>) -> Seq<char> {
    seq!['!', '[', ']', '('] + link_path(path) + seq![')']
}

/// The Markdown image link `![](path)` to a saved image, with forward slashes and spaces
/// encoded as `%20`.
pub fn markdown_link_for(path: &str) -> (r: String)
    ensures
        r@ == image_link(path@),
{
    let v = chars_of(path);
    let mut out: Vec<char> = Vec::new();
    out.push('!');
    out.push('[');
    out.push(']');
    out.push('(');
    let ghost head = out@;
    let mut i: usize = 0;
    while i < v.len()
        invariant
            i <= v@.len(),
            v@ == path@,
            head == seq!['!', '[', ']', '('],
            out@ == head + link_path(v@.take(i as int)),
        decreases v@.len() - i,
    {
        let ghost before = out@;
        let c = v[i];
        if c == '\\' {
            out.push('/');
        } else if c == ' ' {
            out.push('%');
            out.push('2');
            out.push('0');
        } else {
            out.push(c);
        }
        assert(v@.take(i + 1).drop_last() =~= v@.take(i as int));
        assert(out@ =~= before + link_char(c));
        i = i + 1;
    }
    out.push(')');
    assert(v@.take(v@.len() as int) =~= v@);
    assert(out@ =~= image_link(path@));
    string_of(&out)
}

/// The name of an image saved at `millis` milliseconds after the Unix epoch, with the
/// extension `ext`: `img-<millis>.<ext>`.
pub open spec fn timestamp_name(millis: nat, ext: Seq<char>) -> Seq<char> {
    seq!['i', 'm', 'g', '-'] + dec(millis) + seq!['.'] + ext
}

/// The file name of an image saved at `millis` milliseconds after the Unix epoch.
pub fn timestamp_filename(millis: u64, ext: &str) -> (r: String)
    ensures
        r@ == timestamp_name(millis as nat, ext@),
{
    let mut out: Vec<char> = Vec::new();
    out.push('i');
    out.push('m');
    out.push('g');
    out.push('-');
    push_decimal(&mut out, millis);
    out.push('.');
    extend_str(&mut out, ext);
    assert(out@ =~= timestamp_name(millis as nat, ext@));
    string_of(&out)
}

/// The message for a clipboard image with a zero side.
pub open spec fn zero_size_message() -> Seq<char> {
    "clipboard image has zero dimensions"@
}

/// The message for a clipboard image whose buffer holds `len` of the `expected` bytes.
pub open spec fn truncated_message(len: nat, expected: nat) -> Seq<char> {
    "clipboard image is truncated ("@ + dec(len) + " bytes, expected "@ + dec(expected) + ")"@
}

/// What checking a clipboard image of `width` × `height` pixels with a buffer of `len`
/// bytes gives: the number of RGBA bytes it needs, or the error message.
pub open spec fn image_check_spec(width: nat, height: nat, len: nat) -> Result<nat, Seq<char>> {
    if width == 0 || height == 0 {
        Err(zero_size_message())
    } else if len < width * height * 4 {
        Err(truncated_message(len, width * height * 4))
    } else {
        Ok(width * height * 4)
    }
}

/// The RGBA buffer size `width * height * 4` is computed in `u32`; it must fit.
pub open spec fn image_size_fits(width: nat, height: nat) -> bool {
    width > 0 && height > 0 ==> width * height * 4 <= u32::MAX
}

/// Checks a clipboard image of `width` × `height` pixels whose buffer holds `len` bytes:
/// both sides must be positive and the buffer must hold four bytes per pixel.  Returns
/// the number of bytes the image needs, or the error message.
pub fn check_clipboard_image(width: u32, height: u32, len: usize) -> (r: Result<usize, String>)
    requires
        image_size_fits(width as nat, height as nat),
    ensures
        match r {
            Ok(n) => image_check_spec(width as nat, height as nat, len as nat) == Ok::<nat, Seq<char>>(n as nat),
            Err(m) => image_check_spec(width as nat, height as nat, len as nat) == Err::<nat, Seq<char>>(m@),
        },
{
    if width == 0 || height == 0 {
        return Err("clipboard image has zero dimensions".to_owned());
    }
    assert(width * height <= width * height * 4) by (nonlinear_arith)
        requires
            width > 0,
            height > 0,
    ;
    assert(width * height * 4 <= u32::MAX);
    let expected = (width * height * 4) as usize;
    if len < expected {
        let mut out: Vec<char> = Vec::new();
        extend_str(&mut out, "clipboard image is truncated (");
        push_decimal(&mut out, len as u64);
        extend_str(&mut out, " bytes, expected ");
        push_decimal(&mut out, expected as u64);
        extend_str(&mut out, ")");
        return Err(string_of(&out));
    }
    Ok(expected)
}

} // verus!
