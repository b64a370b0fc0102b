//! Which files of a directory count as images: those whose extension, read
//! from the raw bytes of the file name, is one of the known image extensions
//! in any mix of upper and lower case.
use vstd::prelude::*;

verus! {

/// The byte `.`.
pub const DOT: u8 = 46;

/// The byte `A`.
pub const UPPER_A: u8 = 65;

/// The byte `Z`.
pub const UPPER_Z: u8 = 90;

/// The bytes of the name `..`.
pub open spec fn parent_name() -> Seq<u8> {
    seq![DOT, DOT]
}

/// Index of the last `.` among the first `k` bytes of `name`, or -1.
pub open spec fn last_dot_before(name: Seq<u8>, k: int) -> int
    decreases k,
{
    if k <= 0 {
        -1
    } else if name[k - 1] == DOT {
        k - 1
    } else {
        last_dot_before(name, k - 1)
    }
}

/// The extension of a file name: the bytes after its last `.`, provided that
/// dot is not the first byte and the name is not `..`. A name without a dot,
/// or whose only dot leads it (`.bashrc`), has none; `a.` has an empty one.
pub open spec fn extension_of(name: Seq<u8>) -> Option<Seq<u8>> {
    let d = last_dot_before(name, name.len() as int);
    if name == parent_name() || d <= 0 {
        None
    } else {
        Some(name.subrange(d + 1, name.len() as int))
    }
}

/// ASCII lower case of a byte; other bytes are kept.
pub open spec fn ascii_lower(b: u8) -> u8 {
    if UPPER_A <= b <= UPPER_Z {
        (b + 32) as u8
    } else {
        b
    }
}

/// The known image extensions, in lower case ASCII: `jpg`, `jpeg`, `png`,
/// `gif`, `webp`, `bmp`, `tiff`.
pub open spec fn image_extensions() -> Seq<Seq<u8>> {
    seq![
        seq![106u8, 112u8, 103u8],
        seq![106u8, 112u8, 101u8, 103u8],
        seq![112u8, 110u8, 103u8],
        seq![103u8, 105u8, 102u8],
        seq![119u8, 101u8, 98u8, 112u8],
        seq![98u8, 109u8, 112u8],
        seq![116u8, 105u8, 102u8, 102u8],
    ]
}

/// `ext` equals `name` once its ASCII letters are lowered.
pub open spec fn equals_ignoring_ascii_case(ext: Seq<u8>, name: Seq<u8>) -> bool {
    ext.len() == name.len() && forall|k: int| 0 <= k < ext.len() ==> #[trigger] ascii_lower(ext[k]) == name[k]
}

/// `ext` is a known image extension in some mix of upper and lower case.
pub open spec fn is_image_extension(ext: Seq<u8>) -> bool {
    exists|k: int|
        0 <= k < image_extensions().len() && #[trigger] equals_ignoring_ascii_case(
            ext,
            image_extensions()[k],
        )
}

/// A file name whose extension is a known image extension.
pub open spec fn has_image_extension(name: Seq<u8>) -> bool {
    match extension_of(name) {
        Some(ext) => is_image_extension(ext),
        None => false,
    }
}

fn lower_byte(b: u8) -> (r: u8)
    ensures
        r == ascii_lower(b),
{
    if UPPER_A <= b && b <= UPPER_Z {
        b + 32
    } else {
        b
    }
}

fn equal_ignoring_case(ext: &[u8], name: &Vec<u8>) -> (r: bool)
    ensures
        r == equals_ignoring_ascii_case(ext@, name@),
{
    if ext.len() != name.len() {
        return false;
    }
    let mut k: usize = 0;
    while k < ext.len()
        invariant
            ext@.len() == name@.len(),
            k <= ext@.len(),
            forall|m: int| 0 <= m < k ==> #[trigger] ascii_lower(ext@[m]) == name@[m],
        decreases ext@.len() - k,
    {
        if lower_byte(ext[k]) != name[k] {
            return false;
        }
        k += 1;
    }
    true
}

fn image_extension_list() -> (r: Vec<Vec<u8>>)
    ensures
        r@.len() == image_extensions().len(),
        forall|k: int| 0 <= k < r@.len() ==> #[trigger] r@[k]@ == image_extensions()[k],
{
    let r = vec![
        vec![106u8, 112u8, 103u8],
        vec![106u8, 112u8, 101u8, 103u8],
        vec![112u8, 110u8, 103u8],
        vec![103u8, 105u8, 102u8],
        vec![119u8, 101u8, 98u8, 112u8],
        vec![98u8, 109u8, 112u8],
        vec![116u8, 105u8, 102u8, 102u8],
    ];
    assert(r@[0]@ =~= image_extensions()[0]);
    assert(r@[1]@ =~= image_extensions()[1]);
    assert(r@[2]@ =~= image_extensions()[2]);
    assert(r@[3]@ =~= image_extensions()[3]);
    assert(r@[4]@ =~= image_extensions()[4]);
    assert(r@[5]@ =~= image_extensions()[5]);
    assert(r@[6]@ =~= image_extensions()[6]);
    r
}

/// Whether `ext` is a known image extension, ignoring ASCII case.
pub fn is_image_ext(ext: &[u8]) -> (r: bool)
    ensures
        r == is_image_extension(ext@),
{
    let names = image_extension_list();
    let mut k: usize = 0;
    while k < names.len()
        invariant
            names@.len() == image_extensions().len(),
            forall|m: int| 0 <= m < names@.len() ==> #[trigger] names@[m]@ == image_extensions()[m],
            k <= names@.len(),
            forall|m: int|
                0 <= m < k ==> !#[trigger] equals_ignoring_ascii_case(ext@, image_extensions()[m]),
        decreases names@.len() - k,
    {
        if equal_ignoring_case(ext, &names[k]) {
            return true;
        }
        k += 1;
    }
    false
}

/// Start of the extension of `name` (the index just after its last dot), or
/// `None` where the name has no extension.
pub fn extension_start(name: &[u8]) -> (r: Option<usize>)
    ensures
        match extension_of(name@) {
            Some(ext) => r matches Some(s) && s <= name@.len() && ext == name@.subrange(
                s as int,
                name@.len() as int,
            ),
            None => r is None,
        },
{
    let len = name.len();
    if len == 2 && name[0] == DOT && name[1] == DOT {
        assert(name@ =~= parent_name());
        return None;
    }
    let mut k: usize = len;
    while k > 0
        invariant
            k <= len == name@.len(),
            !(name@ =~= parent_name()),
            last_dot_before(name@, len as int) == last_dot_before(name@, k as int),
        decreases k,
    {
        if name[k - 1] == DOT {
            if k - 1 == 0 {
                return None;
            }
            return Some(k);
        }
        k -= 1;
    }
    None
}

/// Whether the file name `name` has a known image extension.
pub fn has_image_ext(name: &[u8]) -> (r: bool)
    ensures
        r == has_image_extension(name@),
{
    match extension_start(name) {
        None => false,
        Some(s) => {
            let ext = slice_tail(name, s);
            is_image_ext(ext)
        },
    }
}

fn slice_tail(s: &[u8], from: usize) -> (r: &[u8])
    requires
        from <= s@.len(),
    ensures
        r@ == s@.subrange(from as int, s@.len() as int),
{
    vstd::slice::slice_subrange(s, from, s.len())
}

/// `ext` spells the lower case ASCII word `word`, each letter in either case.
pub open spec fn spelled_in_any_case(ext: Seq<u8>, word: Seq<u8>) -> bool {
    ext.len() == word.len() && forall|k: int|
        0 <= k < ext.len() ==> #[trigger] ext[k] == word[k] || ext[k] + 32 == word[k]
}

/// `ext` is one of the image formats' names `jpg`, `jpeg`, `png`, `gif`,
/// `webp`, `bmp`, `tiff`, in any mix of upper and lower case.
pub open spec fn names_image_format(ext: Seq<u8>) -> bool {
    ||| spelled_in_any_case(ext, seq![106u8, 112u8, 103u8])
    ||| spelled_in_any_case(ext, seq![106u8, 112u8, 101u8, 103u8])
    ||| spelled_in_any_case(ext, seq![112u8, 110u8, 103u8])
    ||| spelled_in_any_case(ext, seq![103u8, 105u8, 102u8])
    ||| spelled_in_any_case(ext, seq![119u8, 101u8, 98u8, 112u8])
    ||| spelled_in_any_case(ext, seq![98u8, 109u8, 112u8])
    ||| spelled_in_any_case(ext, seq![116u8, 105u8, 102u8, 102u8])
}

proof fn lemma_spelled_word(ext: Seq<u8>, word: Seq<u8>)
    requires
        spelled_in_any_case(ext, word),
        forall|k: int| 0 <= k < word.len() ==> 97 <= #[trigger] word[k] <= 122,
    ensures
        equals_ignoring_ascii_case(ext, word),
        forall|k: int| 0 <= k < ext.len() ==> #[trigger] ext[k] != DOT,
{
    assert forall|k: int| 0 <= k < ext.len() implies #[trigger] ascii_lower(ext[k]) == word[k]
        by {
        assert(97 <= word[k] <= 122);
    }
    assert forall|k: int| 0 <= k < ext.len() implies #[trigger] ext[k] != DOT by {
        assert(97 <= word[k] <= 122);
    }
}

proof fn lemma_last_dot_at(name: Seq<u8>, d: int, k: int)
    requires
        0 <= d < k <= name.len(),
        name[d] == DOT,
        forall|i: int| d < i < name.len() ==> #[trigger] name[i] != DOT,
    ensures
        last_dot_before(name, k) == d,
    decreases k,
{
    if k - 1 > d {
        lemma_last_dot_at(name, d, k - 1);
    }
}

/// Each of the seven image formats' names, in any case, is an image
/// extension, and a file name made of a non-empty stem, a `.` and such a
/// name has an image extension.
pub proof fn lemma_image_formats_accepted(ext: Seq<u8>, stem: Seq<u8>)
    requires
        names_image_format(ext),
        stem.len() >= 1,
    ensures
        is_image_extension(ext),
        has_image_extension(stem + seq![DOT] + ext),
{
    let words = image_extensions();
    let mut k: int = 0;
    if spelled_in_any_case(ext, seq![106u8, 112u8, 103u8]) {
        k = 0;
    } else if spelled_in_any_case(ext, seq![106u8, 112u8, 101u8, 103u8]) {
        k = 1;
    } else if spelled_in_any_case(ext, seq![112u8, 110u8, 103u8]) {
        k = 2;
    } else if spelled_in_any_case(ext, seq![103u8, 105u8, 102u8]) {
        k = 3;
    } else if spelled_in_any_case(ext, seq![119u8, 101u8, 98u8, 112u8]) {
        k = 4;
    } else if spelled_in_any_case(ext, seq![98u8, 109u8, 112u8]) {
        k = 5;
    } else {
        k = 6;
    }
    assert(words[0] =~= seq![106u8, 112u8, 103u8]);
    assert(words[1] =~= seq![106u8, 112u8, 101u8, 103u8]);
    assert(words[2] =~= seq![112u8, 110u8, 103u8]);
    assert(words[3] =~= seq![103u8, 105u8, 102u8]);
    assert(words[4] =~= seq![119u8, 101u8, 98u8, 112u8]);
    assert(words[5] =~= seq![98u8, 109u8, 112u8]);
    assert(words[6] =~= seq![116u8, 105u8, 102u8, 102u8]);
    assert(spelled_in_any_case(ext, words[k]));
    lemma_spelled_word(ext, words[k]);
    assert(is_image_extension(ext));
    let name = stem + seq![DOT] + ext;
    let d = stem.len() as int;
    assert(name[d] == DOT);
    assert forall|i: int| d < i < name.len() implies #[trigger] name[i] != DOT by {
        assert(name[i] == ext[i - d - 1]);
    }
    lemma_last_dot_at(name, d, name.len() as int);
    assert(name.len() >= 5);
    assert(name != parent_name());
    assert(name.subrange(d + 1, name.len() as int) =~= ext);
}

} // verus!
