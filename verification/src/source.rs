//! The names of sources and of what is built of them.
use crate::cli::Features;
use crate::text::copied;
use vstd::prelude::*;

verus! {

/// What a source is built as.
#[derive(Clone, Copy, Debug, PartialEq, Eq, Structural)]
pub enum SourceKind {
    /// An image that is rendered.
    Svg,
    /// Data that is turned into JSON.
    Toml,
    /// A file that is copied.
    Other,
}

/// The byte `.`.
pub const DOT: u8 = 46;

/// Where the last dot of a name is.
pub open spec fn last_dot(name: Seq<u8>) -> Option<int>
    decreases name.len(),
{
    if name.len() == 0 {
        None
    } else if name.last() == DOT {
        Some(name.len() - 1)
    } else {
        last_dot(name.drop_last())
    }
}

/// The part of a name behind its last dot, if something stands before that dot too.
pub open spec fn extension(name: Seq<u8>) -> Option<Seq<u8>> {
    match last_dot(name) {
        Some(i) => if i > 0 {
            Some(name.skip(i + 1))
        } else {
            None
        },
        None => None,
    }
}

/// A letter of the alphabet without its case.
pub open spec fn lower(b: u8) -> u8 {
    if 65 <= b <= 90 {
        (b + 32) as u8
    } else {
        b
    }
}

/// The names differ at most in the case of letters of the alphabet.
pub open spec fn same_letters(a: Seq<u8>, b: Seq<u8>) -> bool {
    a.len() == b.len() && forall|i: int|
        0 <= i < a.len() ==> lower(#[trigger] a[i]) == lower(#[trigger] b[i])
}

/// The extension `svg`.
pub open spec fn svg() -> Seq<u8> {
    seq![115u8, 118u8, 103u8]
}

/// The extension `toml`.
pub open spec fn toml() -> Seq<u8> {
    seq![116u8, 111u8, 109u8, 108u8]
}

/// The extension `png`.
pub open spec fn png() -> Seq<u8> {
    seq![112u8, 110u8, 103u8]
}

/// The extension `json`.
pub open spec fn json() -> Seq<u8> {
    seq![106u8, 115u8, 111u8, 110u8]
}

/// The name `.content-pack-skip`.
pub open spec fn skip_name() -> Seq<u8> {
    seq![
        46u8, 99u8, 111u8, 110u8, 116u8, 101u8, 110u8, 116u8, 45u8, 112u8, 97u8, 99u8, 107u8, 45u8,
        115u8, 107u8, 105u8, 112u8,
    ]
}

/// What a source of that name is built as.
pub open spec fn kind_of(features: Features, name: Seq<u8>) -> SourceKind {
    match extension(name) {
        Some(ext) => if features.svg && same_letters(ext, svg()) {
            SourceKind::Svg
        } else if features.toml && same_letters(ext, toml()) {
            SourceKind::Toml
        } else {
            SourceKind::Other
        },
        None => SourceKind::Other,
    }
}

/// The name of what is built of a source of that name.
pub open spec fn mapped_name(features: Features, name: Seq<u8>) -> Seq<u8> {
    let stem = name.take(last_dot(name)->0 + 1);
    match kind_of(features, name) {
        SourceKind::Svg => stem + png(),
        SourceKind::Toml => stem + json(),
        SourceKind::Other => name,
    }
}

/// A directory with an entry of that name is left out.
pub open spec fn is_skip(name: Seq<u8>) -> bool {
    same_letters(name, skip_name())
}

proof fn lemma_last_dot(name: Seq<u8>)
    ensures
        match last_dot(name) {
            Some(i) => 0 <= i < name.len() && name[i] == DOT && forall|j: int|
                i < j < name.len() ==> #[trigger] name[j] != DOT,
            None => forall|j: int| 0 <= j < name.len() ==> #[trigger] name[j] != DOT,
        },
    decreases name.len(),
{
    if name.len() > 0 {
        lemma_last_dot(name.drop_last());
        assert(name[name.len() - 1] == name.last());
        assert(forall|j: int|
            0 <= j < name.len() - 1 ==> name.drop_last()[j] == #[trigger] name[j]);
    }
}

proof fn lemma_last_dot_is(name: Seq<u8>, i: int)
    requires
        0 <= i < name.len(),
        name[i] == DOT,
        forall|j: int| i < j < name.len() ==> #[trigger] name[j] != DOT,
    ensures
        last_dot(name) == Some(i),
{
    lemma_last_dot(name);
}

/// What is built is not a source that something else would be built of: its name stays as it is.
pub proof fn law_mapped_name(features: Features, name: Seq<u8>)
    ensures
        mapped_name(features, mapped_name(features, name)) == mapped_name(features, name),
        kind_of(features, mapped_name(features, name)) == SourceKind::Other,
{
    lemma_last_dot(name);
    let kind = kind_of(features, name);
    if kind != SourceKind::Other {
        let i = last_dot(name)->0;
        let ext = if kind == SourceKind::Svg {
            png()
        } else {
            json()
        };
        let mapped = mapped_name(features, name);
        assert(mapped == name.take(i + 1) + ext);
        assert(mapped[i] == DOT);
        assert forall|j: int| i < j < mapped.len() implies #[trigger] mapped[j] != DOT by {
            assert(mapped[j] == ext[j - i - 1]);
        }
        lemma_last_dot_is(mapped, i);
        assert(mapped.skip(i + 1) =~= ext);
        assert(lower(ext[0]) != lower(svg()[0]));
        assert(lower(ext[0]) != lower(toml()[0]));
        assert(!same_letters(ext, svg()));
        assert(!same_letters(ext, toml()));
    }
}

/// The byte is the small letter, or the capital one.
pub open spec fn is_letter(b: u8, small: u8) -> bool {
    b == small || b + 32 == small
}

/// The name ends with `.svg`, whatever the case of the letters, and with something before that.
pub open spec fn ends_svg(name: Seq<u8>) -> bool {
    let n = name.len() as int;
    &&& n > 4
    &&& name[n - 4] == 46
    &&& is_letter(name[n - 3], 115)
    &&& is_letter(name[n - 2], 118)
    &&& is_letter(name[n - 1], 103)
}

/// The name ends with `.toml`, whatever the case of the letters, and with something before that.
pub open spec fn ends_toml(name: Seq<u8>) -> bool {
    let n = name.len() as int;
    &&& n > 5
    &&& name[n - 5] == 46
    &&& is_letter(name[n - 4], 116)
    &&& is_letter(name[n - 3], 111)
    &&& is_letter(name[n - 2], 109)
    &&& is_letter(name[n - 1], 108)
}

/// The extension of a name that ends with a dot and some bytes behind it, none of which is a dot.
proof fn lemma_extension(name: Seq<u8>, k: int)
    requires
        0 < k < name.len(),
        name[k] == DOT,
        forall|j: int| k < j < name.len() ==> #[trigger] name[j] != DOT,
    ensures
        last_dot(name) == Some(k),
        extension(name) == Some(name.skip(k + 1)),
{
    lemma_last_dot_is(name, k);
}

/// Each feature acts on its own. A source is built as an image if it is named as one and that feature is
/// on, and as data if it is named so and that feature is on, whatever the other feature is. It gets
/// another ending then, and keeps its name otherwise.
pub proof fn law_features(features: Features, name: Seq<u8>)
    ensures
        kind_of(features, name) == SourceKind::Svg <==> features.svg && ends_svg(name),
        kind_of(features, name) == SourceKind::Toml <==> features.toml && ends_toml(name),
        kind_of(features, name) == SourceKind::Svg ==> mapped_name(features, name) == name.take(
            name.len() - 3,
        ) + seq![112u8, 110u8, 103u8],
        kind_of(features, name) == SourceKind::Toml ==> mapped_name(features, name) == name.take(
            name.len() - 4,
        ) + seq![106u8, 115u8, 111u8, 110u8],
        kind_of(features, name) == SourceKind::Other ==> mapped_name(features, name) == name,
{
    let n = name.len() as int;
    lemma_last_dot(name);
    if ends_svg(name) {
        lemma_extension(name, n - 4);
        let ext = name.skip(n - 3);
        assert(ext[0] == name[n - 3] && ext[1] == name[n - 2] && ext[2] == name[n - 1]);
        assert(same_letters(ext, svg()));
        assert(ext.len() != toml().len());
    }
    if ends_toml(name) {
        lemma_extension(name, n - 5);
        let ext = name.skip(n - 4);
        assert(ext[0] == name[n - 4] && ext[1] == name[n - 3] && ext[2] == name[n - 2] && ext[3]
            == name[n - 1]);
        assert(same_letters(ext, toml()));
        assert(ext.len() != svg().len());
    }
    if let Some(ext) = extension(name) {
        let k = last_dot(name)->0;
        if same_letters(ext, svg()) {
            assert(k == n - 4);
            assert(lower(ext[0]) == lower(svg()[0]));
            assert(lower(ext[1]) == lower(svg()[1]));
            assert(lower(ext[2]) == lower(svg()[2]));
            assert(ends_svg(name));
        }
        if same_letters(ext, toml()) {
            assert(k == n - 5);
            assert(lower(ext[0]) == lower(toml()[0]));
            assert(lower(ext[1]) == lower(toml()[1]));
            assert(lower(ext[2]) == lower(toml()[2]));
            assert(lower(ext[3]) == lower(toml()[3]));
            assert(ends_toml(name));
        }
    }
}

/// A directory is left out for an entry that is named `.content-pack-skip`, whatever the case of its
/// letters, and for no other.
pub proof fn law_skip(name: Seq<u8>)
    ensures
        is_skip(name) <==> name.len() == 18 && name[0] == 46 && name[8] == 45 && name[13] == 45
            && is_letter(name[1], 99) && is_letter(name[2], 111) && is_letter(name[3], 110)
            && is_letter(name[4], 116) && is_letter(name[5], 101) && is_letter(name[6], 110)
            && is_letter(name[7], 116) && is_letter(name[9], 112) && is_letter(name[10], 97)
            && is_letter(name[11], 99) && is_letter(name[12], 107) && is_letter(name[14], 115)
            && is_letter(name[15], 107) && is_letter(name[16], 105) && is_letter(name[17], 112),
{
    let all = skip_name();
    if same_letters(name, all) {
        assert(forall|i: int| 0 <= i < 18 ==> lower(#[trigger] name[i]) == lower(all[i]));
        assert(lower(name[0]) == lower(all[0]) && lower(name[1]) == lower(all[1]));
        assert(lower(name[2]) == lower(all[2]) && lower(name[3]) == lower(all[3]));
        assert(lower(name[4]) == lower(all[4]) && lower(name[5]) == lower(all[5]));
        assert(lower(name[6]) == lower(all[6]) && lower(name[7]) == lower(all[7]));
        assert(lower(name[8]) == lower(all[8]) && lower(name[9]) == lower(all[9]));
        assert(lower(name[10]) == lower(all[10]) && lower(name[11]) == lower(all[11]));
        assert(lower(name[12]) == lower(all[12]) && lower(name[13]) == lower(all[13]));
        assert(lower(name[14]) == lower(all[14]) && lower(name[15]) == lower(all[15]));
        assert(lower(name[16]) == lower(all[16]) && lower(name[17]) == lower(all[17]));
    }
}

/// A letter of the alphabet without its case.
fn lower_case(b: u8) -> (r: u8)
    ensures
        r == lower(b),
{
    if 65 <= b && b <= 90 {
        b + 32
    } else {
        b
    }
}

/// Whether the end of a name differs from another at most in the case of letters of the alphabet.
fn eq_letters(a: &[u8], from: usize, b: &[u8]) -> (r: bool)
    requires
        from <= a@.len(),
    ensures
        r == same_letters(a@.skip(from as int), b@),
{
    let len = a.len();
    if len - from != b.len() {
        return false;
    }
    let ghost end = a@.skip(from as int);
    let mut i: usize = 0;
    while i < b.len()
        invariant
            end == a@.skip(from as int),
            from <= len == a@.len(),
            len - from == b@.len(),
            i <= b@.len(),
            forall|j: int| 0 <= j < i ==> lower(#[trigger] end[j]) == lower(#[trigger] b@[j]),
        decreases b@.len() - i,
    {
        assert(end[i as int] == a@[from + i]);
        if lower_case(a[from + i]) != lower_case(b[i]) {
            return false;
        }
        i += 1;
    }
    true
}

/// Where the last dot of a name is.
fn find_last_dot(name: &[u8]) -> (r: Option<usize>)
    ensures
        match r {
            Some(i) => last_dot(name@) == Some(i as int) && i < usize::MAX,
            None => last_dot(name@) is None,
        },
{
    let mut i: usize = name.len();
    assert(name@.take(i as int) =~= name@);
    while i > 0
        invariant
            i <= name@.len(),
            last_dot(name@) == last_dot(name@.take(i as int)),
        decreases i,
    {
        proof {
            let rest = name@.take(i as int);
            assert(rest.last() == name@[i - 1]);
            assert(rest.drop_last() =~= name@.take(i - 1));
        }
        i -= 1;
        if name[i] == DOT {
            return Some(i);
        }
    }
    None
}

/// What a source of that name is built as, and where its extension starts.
fn kind_and_dot(features: Features, name: &[u8]) -> (r: (SourceKind, usize))
    ensures
        r.0 == kind_of(features, name@),
        r.0 != SourceKind::Other ==> last_dot(name@) == Some(r.1 as int) && r.1 < name@.len(),
        r.1 < usize::MAX,
{
    proof {
        lemma_last_dot(name@);
    }
    let dot = match find_last_dot(name) {
        Some(i) => i,
        None => {
            return (SourceKind::Other, 0);
        },
    };
    if dot == 0 {
        return (SourceKind::Other, 0);
    }
    let svg_ext: [u8; 3] = [115, 118, 103];
    let toml_ext: [u8; 4] = [116, 111, 109, 108];
    proof {
        assert(svg_ext@ =~= svg());
        assert(toml_ext@ =~= toml());
    }
    if features.svg && eq_letters(name, dot + 1, &svg_ext) {
        (SourceKind::Svg, dot)
    } else if features.toml && eq_letters(name, dot + 1, &toml_ext) {
        (SourceKind::Toml, dot)
    } else {
        (SourceKind::Other, dot)
    }
}

/// What a source of that name is built as.
pub fn source_kind(features: Features, name: &[u8]) -> (r: SourceKind)
    ensures
        r == kind_of(features, name@),
{
    kind_and_dot(features, name).0
}

/// The name of what is built of a source of that name.
pub fn map_file_ext(features: Features, name: &[u8]) -> (r: Vec<u8>)
    ensures
        r@ == mapped_name(features, name@),
{
    let (kind, dot) = kind_and_dot(features, name);
    match kind {
        SourceKind::Svg => {
            let mut r = copied(name, 0, dot + 1);
            let ghost stem = r@;
            assert(stem =~= name@.take(dot + 1));
            r.push(112);
            r.push(110);
            r.push(103);
            assert(r@ =~= stem + png());
            r
        },
        SourceKind::Toml => {
            let mut r = copied(name, 0, dot + 1);
            let ghost stem = r@;
            assert(stem =~= name@.take(dot + 1));
            r.push(106);
            r.push(115);
            r.push(111);
            r.push(110);
            assert(r@ =~= stem + json());
            r
        },
        SourceKind::Other => {
            let r = copied(name, 0, name.len());
            assert(r@ =~= name@);
            r
        },
    }
}

/// Whether a directory with an entry of that name is left out.
pub fn skips(name: &[u8]) -> (r: bool)
    ensures
        r == is_skip(name@),
{
    let skip: [u8; 18] = [
        46, 99, 111, 110, 116, 101, 110, 116, 45, 112, 97, 99, 107, 45, 115, 107, 105, 112,
    ];
    proof {
        assert(skip@ =~= skip_name());
        assert(name@.skip(0) =~= name@);
    }
    eq_letters(name, 0, &skip)
}

} // verus!
