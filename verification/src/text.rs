//! Text utilities: parsing the class-catalog file format (one class name
//! per non-empty line, surrounding blanks trimmed) and file-extension
//! handling for input paths.

use vstd::prelude::*;

verus! {

/// Blank characters trimmed from the ends of a catalog line.
pub open spec fn is_blank(c: char) -> bool {
    c == ' ' || c == '\t' || c == '\r'
}

/// The line with its leading blanks removed.
pub open spec fn trim_front(s: Seq<char>) -> Seq<char>
    decreases s.len(),
{
    if s.len() > 0 && is_blank(s[0]) {
        trim_front(s.drop_first())
    } else {
        s
    }
}

/// The line with its trailing blanks removed.
pub open spec fn trim_back(s: Seq<char>) -> Seq<char>
    decreases s.len(),
{
    if s.len() > 0 && is_blank(s.last()) {
        trim_back(s.drop_last())
    } else {
        s
    }
}

/// The line with blanks removed from both ends.
pub open spec fn trim_blanks(s: Seq<char>) -> Seq<char> {
    trim_back(trim_front(s))
}

/// Index of the first newline in `s`, or -1 when there is none.
pub open spec fn find_newline(s: Seq<char>) -> int
    decreases s.len(),
{
    if s.len() == 0 {
        -1
    } else if s[0] == '\n' {
        0
    } else {
        let r = find_newline(s.drop_first());
        if r < 0 {
            -1
        } else {
            r + 1
        }
    }
}

/// The catalog a text defines: its lines in order, each trimmed of
/// surrounding blanks, with empty lines dropped.
pub open spec fn split_class_lines(s: Seq<char>) -> Seq<Seq<char>>
    decreases s.len(),
{
    let nl = find_newline(s);
    if nl < 0 || nl + 1 > s.len() {
        let t = trim_blanks(s);
        if t.len() == 0 {
            Seq::empty()
        } else {
            seq![t]
        }
    } else {
        let head = trim_blanks(s.take(nl));
        let rest = split_class_lines(s.skip(nl + 1));
        if head.len() == 0 {
            rest
        } else {
            seq![head] + rest
        }
    }
}

/// A newline found at `k` by a forward scan is the first one.
proof fn lemma_find_newline_at(s: Seq<char>, k: int)
    requires
        0 <= k <= s.len(),
        forall|j: int| 0 <= j < k ==> s[j] != '\n',
        k < s.len() ==> s[k] == '\n',
    ensures
        find_newline(s) == if k < s.len() {
            k
        } else {
            -1
        },
    decreases k,
{
    if k == 0 {
    } else {
        assert(s[0] != '\n');
        assert(forall|j: int| 0 <= j < k - 1 ==> s.drop_first()[j] == s[j + 1]);
        lemma_find_newline_at(s.drop_first(), k - 1);
    }
}

/// Leading blanks up to `k` and a non-blank at `k` pin down `trim_front`.
proof fn lemma_trim_front_at(s: Seq<char>, k: int)
    requires
        0 <= k <= s.len(),
        forall|j: int| 0 <= j < k ==> is_blank(#[trigger] s[j]),
        k < s.len() ==> !is_blank(s[k]),
    ensures
        trim_front(s) == s.skip(k),
    decreases k,
{
    if k == 0 {
        assert(trim_front(s) =~= s.skip(0));
    } else {
        assert(is_blank(s[0]));
        assert(forall|j: int| 0 <= j < k - 1 ==> is_blank(#[trigger] s.drop_first()[j]));
        lemma_trim_front_at(s.drop_first(), k - 1);
        assert(s.drop_first().skip(k - 1) =~= s.skip(k));
    }
}

/// Trailing blanks from `k` on and a non-blank at `k - 1` pin down
/// `trim_back`.
proof fn lemma_trim_back_at(s: Seq<char>, k: int)
    requires
        0 <= k <= s.len(),
        forall|j: int| k <= j < s.len() ==> is_blank(#[trigger] s[j]),
        k > 0 ==> !is_blank(s[k - 1]),
    ensures
        trim_back(s) == s.take(k),
    decreases s.len() - k,
{
    if k == s.len() {
        if s.len() > 0 && is_blank(s.last()) {
            assert(!is_blank(s[k - 1]));
            assert(false);
        }
        assert(trim_back(s) =~= s.take(k));
    } else {
        assert(is_blank(s.last()));
        assert(forall|j: int| k <= j < s.drop_last().len() ==> is_blank(
            #[trigger] s.drop_last()[j],
        ));
        lemma_trim_back_at(s.drop_last(), k);
        assert(s.drop_last().take(k) =~= s.take(k));
    }
}

/// Collect a string's characters.
///
/// Relies on `str::chars`: the iterator yields exactly the characters the
/// string's view holds, in order.
#[verifier::external_body]
pub(crate) fn str_chars(s: &str) -> (r: Vec<char>)
    ensures
        r@ == s@,
{
    s.chars().collect()
}

/// Build a string from characters.
///
/// Relies on the `FromIterator<char>` implementation of `String`: the
/// result's characters are exactly the input's, in order.
#[verifier::external_body]
pub(crate) fn chars_to_string(v: &Vec<char>) -> (r: String)
    ensures
        r@ == v@,
{
    v.iter().collect()
}

/// Parse a class-catalog text: one class name per non-empty line, each
/// trimmed of surrounding blanks, verified against `split_class_lines`.
pub fn parse_class_names(content: &str) -> (r: Vec<String>)
    ensures
        r@.map_values(|s: String| s@) == split_class_lines(content@),
{
    let chars = str_chars(content);
    let n = chars.len();
    let mut out: Vec<String> = Vec::new();
    let mut pos: usize = 0;
    proof {
        assert(chars@.skip(0) =~= chars@);
        assert(out@.map_values(|s: String| s@) + split_class_lines(chars@)
            =~= split_class_lines(content@));
    }
    while pos < n
        invariant
            n == chars@.len(),
            chars@ == content@,
            pos <= n,
            out@.map_values(|s: String| s@) + split_class_lines(chars@.skip(pos as int))
                == split_class_lines(content@),
        decreases n - pos,
    {
        let ghost sub = chars@.skip(pos as int);
        let mut e: usize = pos;
        while e < n && chars[e] != '\n'
            invariant
                n == chars@.len(),
                pos <= e <= n,
                forall|j: int| pos <= j < e ==> chars@[j] != '\n',
            decreases n - e,
        {
            e += 1;
        }
        proof {
            assert(forall|j: int| 0 <= j < e - pos ==> #[trigger] sub[j] == chars@[j + pos]);
            lemma_find_newline_at(sub, e - pos);
        }
        let mut lo: usize = pos;
        while lo < e && is_blank_char(chars[lo])
            invariant
                n == chars@.len(),
                pos <= lo <= e <= n,
                forall|j: int| pos <= j < lo ==> is_blank(#[trigger] chars@[j]),
            decreases e - lo,
        {
            lo += 1;
        }
        let mut hi: usize = e;
        while hi > lo && is_blank_char(chars[hi - 1])
            invariant
                n == chars@.len(),
                lo <= hi <= e <= n,
                forall|j: int| hi <= j < e ==> is_blank(#[trigger] chars@[j]),
            decreases hi - lo,
        {
            hi -= 1;
        }
        let ghost seg = chars@.subrange(pos as int, e as int);
        proof {
            assert(forall|j: int| 0 <= j < seg.len() ==> #[trigger] seg[j] == chars@[j + pos]);
            lemma_trim_front_at(seg, lo - pos);
            assert(seg.skip(lo - pos) =~= chars@.subrange(lo as int, e as int));
            let fr = chars@.subrange(lo as int, e as int);
            assert(forall|j: int| 0 <= j < fr.len() ==> #[trigger] fr[j] == chars@[j + lo]);
            lemma_trim_back_at(fr, hi - lo);
            assert(fr.take(hi - lo) =~= chars@.subrange(lo as int, hi as int));
            assert(trim_blanks(seg) == chars@.subrange(lo as int, hi as int));
        }
        if lo < hi {
            let mut seg_chars: Vec<char> = Vec::new();
            let mut i: usize = lo;
            while i < hi
                invariant
                    n == chars@.len(),
                    lo <= i <= hi <= n,
                    seg_chars@ == chars@.subrange(lo as int, i as int),
                decreases hi - i,
            {
                seg_chars.push(chars[i]);
                proof {
                    assert(seg_chars@ =~= chars@.subrange(lo as int, i + 1));
                }
                i += 1;
            }
            let name = chars_to_string(&seg_chars);
            let ghost pre = out@;
            out.push(name);
            proof {
                assert(out@.map_values(|s: String| s@) =~= pre.map_values(|s: String| s@).push(
                    chars@.subrange(lo as int, hi as int),
                ));
            }
        }
        let ghost old_pos = pos as int;
        if e < n {
            pos = e + 1;
        } else {
            pos = n;
        }
        proof {
            let t = trim_blanks(sub);
            if e < n {
                assert(find_newline(sub) == e - old_pos);
                assert(sub.take(e - old_pos) =~= chars@.subrange(old_pos, e as int));
                assert(sub.skip(e - old_pos + 1) =~= chars@.skip(e + 1));
                assert(split_class_lines(sub) == (if trim_blanks(sub.take(e - old_pos)).len()
                    == 0 {
                    split_class_lines(chars@.skip(e + 1))
                } else {
                    seq![trim_blanks(sub.take(e - old_pos))] + split_class_lines(
                        chars@.skip(e + 1),
                    )
                }));
            } else {
                assert(find_newline(sub) == -1);
                assert(sub =~= chars@.subrange(old_pos, e as int));
                assert(chars@.skip(pos as int).len() == 0);
                assert(split_class_lines(chars@.skip(pos as int)) =~= Seq::<Seq<char>>::empty());
            }
            assert(out@.map_values(|s: String| s@) + split_class_lines(chars@.skip(pos as int))
                =~= split_class_lines(content@));
        }
    }
    proof {
        assert(chars@.skip(n as int).len() == 0);
        assert(split_class_lines(chars@.skip(n as int)) =~= Seq::<Seq<char>>::empty());
        assert(out@.map_values(|s: String| s@) =~= split_class_lines(content@));
    }
    out
}

/// Whether the character is trimmed from line ends, verified against
/// `is_blank`.
pub fn is_blank_char(c: char) -> (r: bool)
    ensures
        r == is_blank(c),
{
    c == ' ' || c == '\t' || c == '\r'
}


/// ASCII upper-case letters mapped to lower case; all else unchanged.
pub open spec fn lower_char(c: char) -> char {
    if c == 'A' { 'a' }
    else if c == 'B' { 'b' }
    else if c == 'C' { 'c' }
    else if c == 'D' { 'd' }
    else if c == 'E' { 'e' }
    else if c == 'F' { 'f' }
    else if c == 'G' { 'g' }
    else if c == 'H' { 'h' }
    else if c == 'I' { 'i' }
    else if c == 'J' { 'j' }
    else if c == 'K' { 'k' }
    else if c == 'L' { 'l' }
    else if c == 'M' { 'm' }
    else if c == 'N' { 'n' }
    else if c == 'O' { 'o' }
    else if c == 'P' { 'p' }
    else if c == 'Q' { 'q' }
    else if c == 'R' { 'r' }
    else if c == 'S' { 's' }
    else if c == 'T' { 't' }
    else if c == 'U' { 'u' }
    else if c == 'V' { 'v' }
    else if c == 'W' { 'w' }
    else if c == 'X' { 'x' }
    else if c == 'Y' { 'y' }
    else if c == 'Z' { 'z' }
    else { c }
}

/// A sequence of characters, ASCII-lowercased.
pub open spec fn to_lower(s: Seq<char>) -> Seq<char> {
    s.map_values(|c: char| lower_char(c))
}

/// The last index holding `c`, or -1 when `c` does not occur.
pub open spec fn find_last(s: Seq<char>, c: char) -> int
    decreases s.len(),
{
    if s.len() == 0 {
        -1
    } else if s.last() == c {
        s.len() - 1
    } else {
        find_last(s.drop_last(), c)
    }
}

/// The part of a path after its last separator.
pub open spec fn file_name_of(path: Seq<char>) -> Seq<char> {
    let a = find_last(path, '/');
    let b = find_last(path, '\u{5c}');
    let k = if a >= b { a } else { b };
    path.skip(k + 1)
}

/// The path's extension, ASCII-lowercased: the file-name part after its
/// last dot.  A file name without a dot, or whose only dot leads it, has
/// no extension.
pub open spec fn extension_of(path: Seq<char>) -> Option<Seq<char>> {
    let f = file_name_of(path);
    let d = find_last(f, '.');
    if d <= 0 {
        None
    } else {
        Some(to_lower(f.skip(d + 1)))
    }
}

/// Raster-image extensions the pipeline accepts.
pub open spec fn is_image_extension(e: Seq<char>) -> bool {
    ||| e == "jpg"@
    ||| e == "jpeg"@
    ||| e == "png"@
    ||| e == "bmp"@
    ||| e == "gif"@
    ||| e == "tiff"@
    ||| e == "webp"@
}

/// A char found at `k` with none later is the last occurrence.
proof fn lemma_find_last_at(s: Seq<char>, c: char, k: int)
    requires
        0 <= k < s.len(),
        s[k] == c,
        forall|j: int| k < j < s.len() ==> s[j] != c,
    ensures
        find_last(s, c) == k,
    decreases s.len(),
{
    if k == s.len() - 1 {
    } else {
        assert(s.last() != c);
        assert(s.drop_last()[k] == s[k]);
        assert(forall|j: int| k < j < s.drop_last().len() ==> s.drop_last()[j] == s[j]);
        lemma_find_last_at(s.drop_last(), c, k);
    }
}

/// With no occurrence after `k`, the last occurrence is at or before `k`.
proof fn lemma_find_last_le(s: Seq<char>, c: char, k: int)
    requires
        -1 <= k,
        forall|j: int| k < j < s.len() ==> s[j] != c,
    ensures
        find_last(s, c) <= k,
    decreases s.len(),
{
    if s.len() > 0 {
        if s.last() == c {
            assert(s.len() - 1 <= k) by {
                if s.len() - 1 > k {
                    assert(s[s.len() - 1] != c);
                }
            }
        } else {
            assert(forall|j: int| k < j < s.drop_last().len() ==> s.drop_last()[j] == s[j]);
            lemma_find_last_le(s.drop_last(), c, k);
        }
    }
}

/// With no occurrence at all, there is no last occurrence.
proof fn lemma_find_last_none(s: Seq<char>, c: char)
    requires
        forall|j: int| 0 <= j < s.len() ==> s[j] != c,
    ensures
        find_last(s, c) == -1,
    decreases s.len(),
{
    if s.len() > 0 {
        assert(s.last() != c);
        assert(forall|j: int| 0 <= j < s.drop_last().len() ==> s.drop_last()[j] == s[j]);
        lemma_find_last_none(s.drop_last(), c);
    }
}

/// The lower-cased character, verified against `lower_char`.
fn lower_char_exec(c: char) -> (r: char)
    ensures
        r == lower_char(c),
{
    match c {
        'A' => 'a',
        'B' => 'b',
        'C' => 'c',
        'D' => 'd',
        'E' => 'e',
        'F' => 'f',
        'G' => 'g',
        'H' => 'h',
        'I' => 'i',
        'J' => 'j',
        'K' => 'k',
        'L' => 'l',
        'M' => 'm',
        'N' => 'n',
        'O' => 'o',
        'P' => 'p',
        'Q' => 'q',
        'R' => 'r',
        'S' => 's',
        'T' => 't',
        'U' => 'u',
        'V' => 'v',
        'W' => 'w',
        'X' => 'x',
        'Y' => 'y',
        'Z' => 'z',
        other => other,
    }
}

/// The path's extension, ASCII-lowercased, verified against
/// `extension_of`: the file-name part after its last dot, or nothing
/// when the file name has no dot or only a leading one.
pub fn get_file_extension(file_path: &str) -> (r: Option<String>)
    ensures
        r is Some <==> extension_of(file_path@) is Some,
        r matches Some(e) ==> extension_of(file_path@) == Some(e@),
{
    let chars = str_chars(file_path);
    let n = chars.len();
    let mut sep: usize = 0;
    let mut has_sep = false;
    let mut i: usize = 0;
    while i < n
        invariant
            n == chars@.len(),
            i <= n,
            has_sep ==> sep < i && (chars@[sep as int] == '/' || chars@[sep as int] == '\u{5c}')
                && (forall|j: int|
                sep < j < i ==> chars@[j] != '/' && chars@[j] != '\u{5c}'),
            !has_sep ==> forall|j: int| 0 <= j < i ==> chars@[j] != '/' && chars@[j]
                != '\u{5c}',
        decreases n - i,
    {
        if chars[i] == '/' || chars[i] == '\u{5c}' {
            sep = i;
            has_sep = true;
        }
        i += 1;
    }
    let start: usize = if has_sep {
        sep + 1
    } else {
        0
    };
    proof {
        let a = find_last(chars@, '/');
        let b = find_last(chars@, '\u{5c}');
        if has_sep {
            if chars@[sep as int] == '/' {
                lemma_find_last_at(chars@, '/', sep as int);
                lemma_find_last_le(chars@, '\u{5c}', sep as int);
            } else {
                lemma_find_last_at(chars@, '\u{5c}', sep as int);
                lemma_find_last_le(chars@, '/', sep as int);
            }
            assert((if a >= b { a } else { b }) == sep as int);
        } else {
            lemma_find_last_none(chars@, '/');
            lemma_find_last_none(chars@, '\u{5c}');
        }
        assert(file_name_of(chars@) == chars@.skip(start as int));
    }
    let ghost f = chars@.skip(start as int);
    proof {
        assert(forall|j: int| 0 <= j < f.len() ==> #[trigger] f[j] == chars@[j + start]);
    }
    let mut dot: usize = 0;
    let mut has_dot = false;
    let mut k: usize = start;
    while k < n
        invariant
            n == chars@.len(),
            start <= k <= n,
            has_dot ==> start <= dot && dot < k && chars@[dot as int] == '.' && (forall|j: int|
                dot < j < k ==> chars@[j] != '.'),
            !has_dot ==> forall|j: int| start <= j < k ==> chars@[j] != '.',
        decreases n - k,
    {
        if chars[k] == '.' {
            dot = k;
            has_dot = true;
        }
        k += 1;
    }
    proof {
        if has_dot {
            assert(f[dot - start] == '.');
            assert(forall|j: int| dot - start < j < f.len() ==> f[j] != '.');
            lemma_find_last_at(f, '.', dot - start);
        } else {
            assert(forall|j: int| 0 <= j < f.len() ==> f[j] != '.');
            lemma_find_last_none(f, '.');
        }
    }
    if !has_dot || dot == start {
        return None;
    }
    let mut ext: Vec<char> = Vec::new();
    let mut m: usize = dot + 1;
    proof {
        assert(ext@ =~= chars@.subrange(dot + 1, dot + 1).map_values(
            |c: char| lower_char(c),
        ));
    }
    while m < n
        invariant
            n == chars@.len(),
            dot + 1 <= m <= n,
            ext@ == chars@.subrange(dot + 1, m as int).map_values(|c: char| lower_char(c)),
        decreases n - m,
    {
        let lc = lower_char_exec(chars[m]);
        ext.push(lc);
        proof {
            assert(ext@ =~= chars@.subrange(dot + 1, m + 1).map_values(
                |c: char| lower_char(c),
            ));
        }
        m += 1;
    }
    let s = chars_to_string(&ext);
    proof {
        assert(f.skip(dot - start + 1) =~= chars@.subrange(dot + 1, n as int));
        assert(to_lower(f.skip(dot - start + 1)) =~= ext@);
    }
    Some(s)
}

/// Whether the path names a raster image the pipeline accepts, by its
/// extension alone.
pub fn is_supported_image_path(file_path: &str) -> (r: bool)
    ensures
        r == (extension_of(file_path@) matches Some(e) && is_image_extension(e)),
{
    match get_file_extension(file_path) {
        None => false,
        Some(e) => {
            e.eq(&"jpg".to_owned()) || e.eq(&"jpeg".to_owned()) || e.eq(&"png".to_owned())
                || e.eq(&"bmp".to_owned()) || e.eq(&"gif".to_owned()) || e.eq(&"tiff".to_owned())
                || e.eq(&"webp".to_owned())
        },
    }
}

/// Whether the path names a model file: only the `onnx` extension is
/// supported.
pub fn is_model_path(file_path: &str) -> (r: bool)
    ensures
        r == (extension_of(file_path@) == Some("onnx"@)),
{
    match get_file_extension(file_path) {
        None => false,
        Some(e) => e.eq(&"onnx".to_owned()),
    }
}

} // verus!
