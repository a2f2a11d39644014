//! File paths as byte strings, with the separator `/`.

use vstd::prelude::*;
use vstd::slice::{slice_subrange, slice_to_vec};
use vstd::utf8::{char_u32_cast, decode_utf8, encode_utf8, encode_utf8_decode_utf8,
    encode_utf8_first_scalar, encode_utf8_valid_utf8, valid_utf8};

use crate::text::{lemma_position_is, lemma_split_joined, lemma_without_leading, split_on,
    without_leading};

verus! {

/// The separator between the components of a path.
pub const SEPARATOR: u8 = 47;

/// The byte of which `.` and `..` are made.
pub const DOT: u8 = 46;

/// A path on disk.
#[derive(Debug)]
pub struct FilePath {
    /// The bytes of the path.
    pub bytes: Vec<u8>,
}

impl View for FilePath {
    type V = Seq<u8>;

    open spec fn view(&self) -> Seq<u8> {
        self.bytes@
    }
}

/// Whether a path starts at the root.
pub open spec fn absolute(path: Seq<u8>) -> bool {
    path.len() > 0 && path[0] == SEPARATOR
}

/// `relative` seen from `base`: `relative` itself where it is absolute.
pub open spec fn joined(base: Seq<u8>, relative: Seq<u8>) -> Seq<u8> {
    if absolute(relative) {
        relative
    } else if base.len() > 0 && base.last() != SEPARATOR {
        base.push(SEPARATOR) + relative
    } else {
        base + relative
    }
}

/// The root component.
pub open spec fn root_part() -> Seq<u8> {
    seq![SEPARATOR]
}

/// The component for the directory itself.
pub open spec fn here_part() -> Seq<u8> {
    seq![DOT]
}

/// The component for the directory above.
pub open spec fn up_part() -> Seq<u8> {
    seq![DOT, DOT]
}

/// The pieces between separators that count as components: neither an empty
/// piece, nor a `.` other than at the very beginning.
pub open spec fn counted(pieces: Seq<Seq<u8>>) -> Seq<Seq<u8>>
    decreases pieces.len(),
{
    if pieces.len() == 0 {
        Seq::empty()
    } else {
        let before = counted(pieces.drop_last());
        let piece = pieces.last();
        if piece.len() == 0 || (piece == here_part() && pieces.len() > 1) {
            before
        } else {
            before.push(piece)
        }
    }
}

/// The components of a path. The root counts as the component `/`.
pub open spec fn components(path: Seq<u8>) -> Seq<Seq<u8>> {
    let names = counted(split_on(path, SEPARATOR));
    if absolute(path) {
        seq![root_part()] + names
    } else {
        names
    }
}

/// Whether a component names an entry of a directory.
pub open spec fn is_name(part: Seq<u8>) -> bool {
    part != root_part() && part != here_part() && part != up_part()
}

/// Whether every component of a path names an entry of a directory.
pub open spec fn plain(path: Seq<u8>) -> bool {
    forall|i: int| 0 <= i < components(path).len() ==> is_name(#[trigger] components(path)[i])
}

/// Whether two paths have the same components, however they are written.
pub open spec fn same_path(a: Seq<u8>, b: Seq<u8>) -> bool {
    components(a) == components(b)
}

/// Whether `path` is `base` or lies below it.
pub open spec fn within(path: Seq<u8>, base: Seq<u8>) -> bool {
    components(base).is_prefix_of(components(path))
}

/// The name at the end of a path.
pub open spec fn file_name(path: Seq<u8>) -> Option<Seq<u8>> {
    let parts = components(path);
    if parts.len() > 0 && is_name(parts.last()) {
        Some(parts.last())
    } else {
        None
    }
}

/// The components of the directory that holds a path.
pub open spec fn parent_components(path: Seq<u8>) -> Option<Seq<Seq<u8>>> {
    let parts = components(path);
    if parts.len() > 0 && parts.last() != root_part() {
        Some(parts.drop_last())
    } else {
        None
    }
}

/// The text of a path whose bytes need not be UTF-8.
pub uninterp spec fn lossy_text(bytes: Seq<u8>) -> Seq<char>;

/// Trusted: `String::from_utf8_lossy` gives a text that depends on the bytes
/// alone, and exactly the text that they encode where they are valid UTF-8.
#[verifier::external_body]
fn from_utf8_lossy(bytes: &[u8]) -> (text: String)
    ensures
        text@ == lossy_text(bytes@),
        valid_utf8(bytes@) ==> text@ == decode_utf8(bytes@),
{
    String::from_utf8_lossy(bytes).into_owned()
}

/// The views of a list of byte strings.
pub open spec fn byte_views(pieces: Seq<Vec<u8>>) -> Seq<Seq<u8>> {
    pieces.map_values(|piece: Vec<u8>| piece@)
}

/// Whether two byte strings are the same.
pub fn same_bytes(a: &[u8], b: &[u8]) -> (same: bool)
    ensures
        same == (a@ == b@),
{
    if a.len() != b.len() {
        return false;
    }
    let mut i: usize = 0;
    while i < a.len()
        invariant
            i <= a@.len(),
            a@.len() == b@.len(),
            forall|k: int| 0 <= k < i ==> a@[k] == b@[k],
        decreases a@.len() - i,
    {
        if a[i] != b[i] {
            return false;
        }
        i = i + 1;
    }
    assert(a@ =~= b@);
    true
}

/// The pieces of `bytes` between the occurrences of `mark`.
fn split_bytes(bytes: &[u8], mark: u8) -> (pieces: Vec<Vec<u8>>)
    ensures
        byte_views(pieces@) == split_on(bytes@, mark),
{
    let mut pieces: Vec<Vec<u8>> = Vec::new();
    let mut start: usize = 0;
    let mut i: usize = 0;
    assert(bytes@.skip(0) =~= bytes@);
    assert(byte_views(pieces@) + split_on(bytes@, mark) =~= split_on(bytes@, mark));
    while i < bytes.len()
        invariant
            start <= i <= bytes@.len(),
            forall|k: int| start <= k < i ==> bytes@[k] != mark,
            byte_views(pieces@) + split_on(bytes@.skip(start as int), mark) == split_on(bytes@, mark),
        decreases bytes@.len() - i,
    {
        if bytes[i] == mark {
            let piece = slice_to_vec(slice_subrange(bytes, start, i));
            let ghost before = byte_views(pieces@);
            let ghost rest = bytes@.skip(start as int);
            pieces.push(piece);
            proof {
                lemma_position_is(rest, mark, i - start);
                assert(byte_views(pieces@) =~= before.push(piece@));
                assert(piece@ =~= rest.take(i - start));
                assert(rest.skip(i - start + 1) =~= bytes@.skip(i + 1));
                assert(before + (seq![piece@] + split_on(bytes@.skip(i + 1), mark)) =~= before.push(
                    piece@,
                ) + split_on(bytes@.skip(i + 1), mark));
            }
            start = i + 1;
        }
        i = i + 1;
    }
    let piece = slice_to_vec(slice_subrange(bytes, start, i));
    let ghost before = byte_views(pieces@);
    let ghost rest = bytes@.skip(start as int);
    pieces.push(piece);
    proof {
        lemma_position_is(rest, mark, rest.len() as int);
        assert(piece@ =~= rest);
        assert(byte_views(pieces@) =~= before.push(piece@));
        assert(before + seq![rest] =~= before.push(piece@));
    }
    pieces
}

fn is_here(piece: &Vec<u8>) -> (yes: bool)
    ensures
        yes == (piece@ == here_part()),
{
    let yes = piece.len() == 1 && piece[0] == DOT;
    assert(yes ==> piece@ =~= here_part());
    yes
}

fn is_up(piece: &Vec<u8>) -> (yes: bool)
    ensures
        yes == (piece@ == up_part()),
{
    let yes = piece.len() == 2 && piece[0] == DOT && piece[1] == DOT;
    assert(yes ==> piece@ =~= up_part());
    yes
}

fn is_root(piece: &Vec<u8>) -> (yes: bool)
    ensures
        yes == (piece@ == root_part()),
{
    let yes = piece.len() == 1 && piece[0] == SEPARATOR;
    assert(yes ==> piece@ =~= root_part());
    yes
}

/// Whether `parts` begin with `front`.
fn parts_begin(parts: &Vec<Vec<u8>>, front: &Vec<Vec<u8>>, count: usize) -> (yes: bool)
    requires
        count <= front@.len(),
    ensures
        yes == byte_views(front@).take(count as int).is_prefix_of(byte_views(parts@)),
{
    let ghost whole = byte_views(parts@);
    let ghost head = byte_views(front@).take(count as int);
    if parts.len() < count {
        return false;
    }
    let mut i: usize = 0;
    while i < count
        invariant
            i <= count <= front@.len(),
            count <= parts@.len(),
            whole == byte_views(parts@),
            head == byte_views(front@).take(count as int),
            forall|k: int| 0 <= k < i ==> head[k] == whole[k],
        decreases count - i,
    {
        if !same_bytes(parts[i].as_slice(), front[i].as_slice()) {
            proof {
                assert(head[i as int] == front@[i as int]@);
                assert(whole.subrange(0, count as int)[i as int] == parts@[i as int]@);
            }
            return false;
        }
        proof {
            assert(head[i as int] == front@[i as int]@);
            assert(whole[i as int] == parts@[i as int]@);
        }
        i = i + 1;
    }
    assert(head =~= whole.subrange(0, count as int));
    true
}

impl FilePath {
    /// The path written as `text`.
    pub fn from_text(text: &str) -> (path: FilePath)
        ensures
            path@ == encode_utf8(text@),
    {
        FilePath { bytes: slice_to_vec(text.as_bytes()) }
    }

    /// The same path once more.
    pub fn copy(&self) -> (path: FilePath)
        ensures
            path@ == self@,
    {
        FilePath { bytes: slice_to_vec(self.bytes.as_slice()) }
    }

    /// The path as text. Bytes that are not UTF-8 come out replaced.
    pub fn to_text(&self) -> (text: String)
        ensures
            text@ == lossy_text(self@),
            valid_utf8(self@) ==> text@ == decode_utf8(self@),
    {
        from_utf8_lossy(self.bytes.as_slice())
    }

    /// `relative` seen from this path: `relative` itself where it is absolute.
    pub fn join(&self, relative: &str) -> (path: FilePath)
        ensures
            path@ == joined(self@, encode_utf8(relative@)),
    {
        let tail = relative.as_bytes();
        if tail.len() > 0 && tail[0] == SEPARATOR {
            return FilePath { bytes: slice_to_vec(tail) };
        }
        let mut bytes = slice_to_vec(self.bytes.as_slice());
        if bytes.len() > 0 && bytes[bytes.len() - 1] != SEPARATOR {
            bytes.push(SEPARATOR);
        }
        let ghost before = bytes@;
        bytes.extend_from_slice(tail);
        assert(bytes@ =~= before + tail@);
        FilePath { bytes }
    }

    /// The components of the path.
    pub fn components(&self) -> (parts: Vec<Vec<u8>>)
        ensures
            byte_views(parts@) == components(self@),
    {
        let pieces = split_bytes(self.bytes.as_slice(), SEPARATOR);
        let ghost all = split_on(self@, SEPARATOR);
        let mut parts: Vec<Vec<u8>> = Vec::new();
        let ghost mut front: Seq<Seq<u8>> = Seq::empty();
        if self.bytes.len() > 0 && self.bytes[0] == SEPARATOR {
            let mut root: Vec<u8> = Vec::new();
            root.push(SEPARATOR);
            assert(root@ =~= root_part());
            parts.push(root);
            proof {
                front = seq![root_part()];
            }
        }
        assert(byte_views(parts@) =~= front);
        assert(all.take(0) =~= Seq::empty());
        assert(front + counted(all.take(0)) =~= front);
        let mut i: usize = 0;
        while i < pieces.len()
            invariant
                i <= pieces@.len(),
                byte_views(pieces@) == all,
                byte_views(parts@) == front + counted(all.take(i as int)),
            decreases pieces@.len() - i,
        {
            let piece = &pieces[i];
            let ghost before = byte_views(parts@);
            proof {
                assert(piece@ == all[i as int]);
                assert(all.take(i + 1).drop_last() =~= all.take(i as int));
                assert(all.take(i + 1).last() == piece@);
            }
            if piece.len() > 0 && !(is_here(piece) && i > 0) {
                let part = slice_to_vec(piece.as_slice());
                parts.push(part);
                proof {
                    assert(byte_views(parts@) =~= before.push(piece@));
                    assert(front + counted(all.take(i as int)).push(piece@) =~= (front + counted(
                        all.take(i as int),
                    )).push(piece@));
                }
            }
            i = i + 1;
        }
        assert(all.take(i as int) =~= all);
        assert(front + counted(all) =~= components(self@));
        parts
    }

    /// Whether every component names an entry of a directory.
    pub fn is_plain(&self) -> (yes: bool)
        ensures
            yes == plain(self@),
    {
        let parts = self.components();
        let mut i: usize = 0;
        while i < parts.len()
            invariant
                i <= parts@.len(),
                byte_views(parts@) == components(self@),
                forall|k: int| 0 <= k < i ==> is_name(#[trigger] components(self@)[k]),
            decreases parts@.len() - i,
        {
            assert(components(self@)[i as int] == parts@[i as int]@);
            if is_root(&parts[i]) || is_here(&parts[i]) || is_up(&parts[i]) {
                assert(!is_name(components(self@)[i as int]));
                return false;
            }
            i = i + 1;
        }
        true
    }

    /// Whether the path is `base` or lies below it.
    pub fn starts_with(&self, base: &FilePath) -> (yes: bool)
        ensures
            yes == within(self@, base@),
    {
        let parts = self.components();
        let front = base.components();
        let count = front.len();
        assert(byte_views(front@).take(count as int) =~= components(base@));
        parts_begin(&parts, &front, count)
    }

    /// Whether this is the same path as another, however they are written.
    pub fn is_same(&self, other: &FilePath) -> (yes: bool)
        ensures
            yes == same_path(self@, other@),
    {
        let parts = self.components();
        let others = other.components();
        let count = others.len();
        if parts.len() != count {
            assert(byte_views(parts@).len() != byte_views(others@).len());
            return false;
        }
        let same = parts_begin(&parts, &others, count);
        assert(byte_views(others@).take(count as int) =~= components(other@));
        assert(components(self@).subrange(0, count as int) =~= components(self@));
        same
    }

    /// Whether the path ends in `name`.
    pub fn is_named(&self, name: &str) -> (yes: bool)
        ensures
            yes == (file_name(self@) == Some(encode_utf8(name@))),
    {
        let parts = self.components();
        let count = parts.len();
        if count == 0 {
            return false;
        }
        let last = &parts[count - 1];
        assert(last@ == components(self@).last());
        if is_root(last) || is_here(last) || is_up(last) {
            return false;
        }
        same_bytes(last.as_slice(), name.as_bytes())
    }

    /// Whether `directory` is the directory that holds this path, or lies
    /// below that one.
    pub fn parent_holds(&self, directory: &FilePath) -> (yes: bool)
        ensures
            yes == match parent_components(self@) {
                Some(parent) => parent.is_prefix_of(components(directory@)),
                None => false,
            },
    {
        let parts = self.components();
        let count = parts.len();
        if count == 0 || is_root(&parts[count - 1]) {
            assert(count > 0 ==> parts@[count - 1]@ == components(self@).last());
            return false;
        }
        assert(parts@[count - 1]@ == components(self@).last());
        let inner = directory.components();
        assert(byte_views(parts@).take(count - 1) =~= components(self@).drop_last());
        parts_begin(&inner, &parts, count - 1)
    }
}

// ---------------------------------------------------------------------------
// Laws

proof fn lemma_counted_joined(a: Seq<Seq<u8>>, b: Seq<Seq<u8>>)
    requires
        a.len() > 0,
        b.len() > 0 ==> b[0] != here_part(),
    ensures
        counted(a + b) == counted(a) + counted(b),
    decreases b.len(),
{
    if b.len() == 0 {
        assert(a + b =~= a);
        assert(counted(a) + counted(b) =~= counted(a));
    } else {
        assert((a + b).drop_last() =~= a + b.drop_last());
        assert((a + b).last() == b.last());
        lemma_counted_joined(a, b.drop_last());
        assert(b.len() == 1 ==> b.last() == b[0]);
        if !(b.last().len() == 0 || (b.last() == here_part() && b.len() > 1)) {
            assert((counted(a) + counted(b.drop_last())).push(b.last()) =~= counted(a) + counted(
                b.drop_last(),
            ).push(b.last()));
        }
    }
}

/// The first piece of a path is its first component, where it is not empty.
proof fn lemma_first_counted(pieces: Seq<Seq<u8>>)
    requires
        pieces.len() > 0,
        pieces[0].len() > 0,
    ensures
        counted(pieces).len() > 0,
        counted(pieces)[0] == pieces[0],
    decreases pieces.len(),
{
    if pieces.len() == 1 {
        assert(pieces.drop_last() =~= Seq::empty());
    } else {
        lemma_first_counted(pieces.drop_last());
    }
}

/// What a join of a relative path without special components names: the
/// components of the base, followed by those of the relative path.
pub proof fn law_join_appends(base: Seq<u8>, relative: Seq<u8>)
    requires
        !absolute(relative),
        plain(relative),
    ensures
        components(joined(base, relative)) == components(base) + components(relative),
{
    let whole = joined(base, relative);
    let b = split_on(relative, SEPARATOR);
    crate::text::lemma_split_not_empty(relative, SEPARATOR);
    if b[0] == here_part() {
        lemma_first_counted(b);
        assert(components(relative)[0] == here_part());
        assert(is_name(components(relative)[0]));
    }
    if base.len() == 0 {
        assert(whole =~= relative);
        lemma_position_is(base, SEPARATOR, 0);
        assert(split_on(base, SEPARATOR) =~= seq![base]);
        assert(seq![base].drop_last() =~= Seq::empty());
        assert(seq![base].last().len() == 0);
        assert(counted(Seq::<Seq<u8>>::empty()) =~= Seq::<Seq<u8>>::empty());
        assert(counted(seq![base]) =~= Seq::<Seq<u8>>::empty());
        assert(components(base) + components(relative) =~= components(relative));
    } else {
        let front = if base.last() == SEPARATOR {
            base.drop_last()
        } else {
            base
        };
        let a = split_on(front, SEPARATOR);
        crate::text::lemma_split_not_empty(front, SEPARATOR);
        assert(whole =~= front.push(SEPARATOR) + relative);
        lemma_split_joined(front, relative, SEPARATOR);
        lemma_counted_joined(a, b);
        assert(whole[0] == base[0]);
        if base.last() == SEPARATOR {
            let nothing = Seq::<u8>::empty();
            assert(base =~= front.push(SEPARATOR) + nothing);
            lemma_split_joined(front, nothing, SEPARATOR);
            lemma_position_is(nothing, SEPARATOR, 0);
            assert(split_on(nothing, SEPARATOR) =~= seq![nothing]);
            assert((a + seq![nothing]).drop_last() =~= a);
            assert((a + seq![nothing]).last() == nothing);
            assert(counted(a + seq![nothing]) == counted(a));
        }
        assert(counted(split_on(base, SEPARATOR)) == counted(a));
        assert((seq![root_part()] + counted(a)) + counted(b) =~= seq![root_part()] + (counted(a)
            + counted(b)));
    }
}

/// Joining a relative path without special components stays below the base.
pub proof fn law_join_stays_within(base: Seq<u8>, relative: Seq<u8>)
    requires
        !absolute(relative),
        plain(relative),
    ensures
        within(joined(base, relative), base),
{
    law_join_appends(base, relative);
    let parts = components(joined(base, relative));
    assert(parts.subrange(0, components(base).len() as int) =~= components(base));
}

/// A name is a path with one component.
pub proof fn lemma_name_is_one_component(name: Seq<u8>)
    requires
        name.len() > 0,
        is_name(name),
        forall|i: int| 0 <= i < name.len() ==> #[trigger] name[i] != SEPARATOR,
    ensures
        !absolute(name),
        components(name) == seq![name],
        plain(name),
{
    lemma_position_is(name, SEPARATOR, name.len() as int);
    assert(split_on(name, SEPARATOR) =~= seq![name]);
    assert(seq![name].drop_last() =~= Seq::empty());
    assert(counted(Seq::<Seq<u8>>::empty()) =~= Seq::<Seq<u8>>::empty());
    assert(counted(seq![name]) =~= seq![name]);
    assert(name[0] != SEPARATOR);
    assert(components(name) =~= seq![name]);
}

/// A path without the separators at its beginning is relative.
pub proof fn lemma_trimmed_is_relative(path: Seq<char>)
    ensures
        !absolute(encode_utf8(without_leading(path, '/'))),
{
    let rest = without_leading(path, '/');
    lemma_without_leading(path, '/');
    if rest.len() > 0 {
        encode_utf8_first_scalar(rest);
        if encode_utf8(rest)[0] == SEPARATOR {
            assert(SEPARATOR & 0x7f == 47u8) by (bit_vector)
                requires
                    SEPARATOR == 47u8,
            ;
            char_u32_cast(rest[0], 47);
        }
    }
}

/// A path written as text is read back as that text.
pub proof fn law_text_reads_back(text: Seq<char>)
    ensures
        valid_utf8(encode_utf8(text)),
        decode_utf8(encode_utf8(text)) == text,
{
    encode_utf8_valid_utf8(text);
    encode_utf8_decode_utf8(text);
}

/// A path is joined behind a separator, unless the base ends in one or is empty.
/// A path that starts at the root takes the place of the base.
pub proof fn law_join(base: Seq<u8>, relative: Seq<u8>)
    ensures
        relative.len() > 0 && relative[0] == 47 ==> joined(base, relative) == relative,
        relative.len() == 0 || relative[0] != 47 ==> {
            &&& base.len() == 0 ==> joined(base, relative) == relative
            &&& base.len() > 0 && base.last() == 47 ==> joined(base, relative) == base + relative
            &&& base.len() > 0 && base.last() != 47 ==> joined(base, relative) == base + seq![47u8]
                + relative
        },
{
    if base.len() == 0 && (relative.len() == 0 || relative[0] != 47) {
        assert(joined(base, relative) =~= relative);
    }
    assert(base.push(SEPARATOR) + relative =~= base + seq![47u8] + relative);
}

/// A text without a separator.
pub open spec fn one_piece(piece: Seq<u8>) -> bool {
    forall|i: int| 0 <= i < piece.len() ==> #[trigger] piece[i] != 47
}

proof fn lemma_one_piece(piece: Seq<u8>)
    requires
        one_piece(piece),
    ensures
        split_on(piece, SEPARATOR) == seq![piece],
        counted(seq![piece]) == if piece.len() == 0 {
            Seq::empty()
        } else {
            seq![piece]
        },
{
    lemma_position_is(piece, SEPARATOR, piece.len() as int);
    assert(split_on(piece, SEPARATOR) =~= seq![piece]);
    assert(seq![piece].drop_last() =~= Seq::empty());
    assert(seq![piece].last() == piece);
    assert(counted(Seq::<Seq<u8>>::empty()) =~= Seq::<Seq<u8>>::empty());
    assert(counted(seq![piece]) =~= if piece.len() == 0 {
        Seq::empty()
    } else {
        seq![piece]
    });
}

/// The components of a path, from its pieces: one more piece is one more
/// component, unless it is empty or a dot. The first piece counts even where it
/// is a dot, and a separator at the beginning is the root.
pub proof fn law_components_one_by_one(path: Seq<u8>, piece: Seq<u8>)
    requires
        one_piece(piece),
    ensures
        piece.len() == 0 ==> components(piece).len() == 0,
        piece.len() > 0 ==> components(piece) == seq![piece],
        path.len() > 0 && (piece.len() == 0 || piece == seq![46u8]) ==> components(
            path + seq![47u8] + piece,
        ) == components(path),
        path.len() > 0 && piece.len() > 0 && piece != seq![46u8] ==> components(
            path + seq![47u8] + piece,
        ) == components(path).push(piece),
        piece.len() == 0 || piece == seq![46u8] ==> components(seq![47u8] + piece) == seq![
            seq![47u8],
        ],
        piece.len() > 0 && piece != seq![46u8] ==> components(seq![47u8] + piece) == seq![
            seq![47u8],
            piece,
        ],
{
    lemma_one_piece(piece);
    assert(seq![46u8] =~= here_part());
    assert(seq![47u8] =~= root_part());
    let whole = path + seq![47u8] + piece;
    let pieces = split_on(path, SEPARATOR);
    crate::text::lemma_split_not_empty(path, SEPARATOR);
    assert(whole =~= path.push(SEPARATOR) + piece);
    lemma_split_joined(path, piece, SEPARATOR);
    let all = pieces + seq![piece];
    assert(all.drop_last() =~= pieces);
    assert(all.last() == piece);
    if path.len() > 0 {
        assert(whole[0] == path[0]);
        assert(components(path).push(piece) =~= if absolute(path) {
            seq![root_part()] + counted(pieces).push(piece)
        } else {
            counted(pieces).push(piece)
        });
    }
    let nothing = Seq::<u8>::empty();
    let rooted = seq![47u8] + piece;
    assert(rooted =~= nothing.push(SEPARATOR) + piece);
    lemma_split_joined(nothing, piece, SEPARATOR);
    lemma_one_piece(nothing);
    let two = seq![nothing] + seq![piece];
    assert(two.drop_last() =~= seq![nothing]);
    assert(two.last() == piece);
    assert(rooted[0] == SEPARATOR);
    if piece.len() == 0 || piece == seq![46u8] {
        assert(components(rooted) =~= seq![seq![47u8]]);
    } else {
        assert(components(rooted) =~= seq![seq![47u8], piece]);
    }
    if piece.len() == 0 {
        assert(!absolute(piece));
    } else {
        assert(piece[0] != 47);
    }
}

/// A path leads nowhere but below where it is looked at from if and only if it
/// does not start at the root, its first piece is no dot, and none of its pieces
/// is a pair of dots.
pub proof fn law_plain_one_by_one(path: Seq<u8>, piece: Seq<u8>)
    requires
        one_piece(piece),
    ensures
        plain(piece) <==> piece != seq![46u8] && piece != seq![46u8, 46],
        path.len() > 0 ==> (plain(path + seq![47u8] + piece) <==> plain(path) && piece != seq![
            46u8,
            46,
        ]),
        !plain(seq![47u8] + piece),
{
    law_components_one_by_one(path, piece);
    assert(seq![46u8] =~= here_part());
    assert(seq![46u8, 46] =~= up_part());
    assert(seq![47u8] =~= root_part());
    if piece.len() > 0 {
        assert(piece[0] != 47);
        assert(components(piece)[0] == piece);
    }
    assert(here_part().len() == 1 && up_part().len() == 2);
    if piece == root_part() {
        assert(piece[0] == 47);
    }
    let whole = path + seq![47u8] + piece;
    if path.len() > 0 {
        let before = components(path);
        let after = components(whole);
        if piece.len() == 0 || piece == here_part() {
            assert(after == before);
        } else {
            assert(after == before.push(piece));
            assert(after[before.len() as int] == piece);
            assert forall|i: int| 0 <= i < before.len() implies after[i] == #[trigger] before[i] by {}
            if plain(path) && piece != up_part() {
                assert forall|i: int| 0 <= i < after.len() implies is_name(#[trigger] after[i]) by {
                    if i < before.len() {
                        assert(is_name(before[i]));
                    }
                }
            }
            if plain(whole) {
                assert forall|i: int| 0 <= i < before.len() implies is_name(#[trigger] before[i]) by {
                    assert(is_name(after[i]));
                }
                assert(is_name(after[before.len() as int]));
            }
        }
    }
    let rooted = seq![47u8] + piece;
    assert(components(rooted)[0] == root_part());
    assert(!is_name(components(rooted)[0]));
}

/// A path lies below another if and only if it begins with all its components,
/// and is the same if and only if it has no further ones.
pub proof fn law_within(path: Seq<u8>, base: Seq<u8>)
    ensures
        within(path, base) <==> (components(base).len() <= components(path).len() && forall|i: int|
            0 <= i < components(base).len() ==> #[trigger] components(path)[i] == components(
                base,
            )[i]),
        same_path(path, base) <==> within(path, base) && within(base, path),
        within(path, path),
{
    let parts = components(path);
    let front = components(base);
    assert(parts.subrange(0, parts.len() as int) =~= parts);
    if within(path, base) {
        assert forall|i: int| 0 <= i < front.len() implies #[trigger] parts[i] == front[i] by {
            assert(parts.subrange(0, front.len() as int)[i] == parts[i]);
        }
    }
    if front.len() <= parts.len() && forall|i: int|
        0 <= i < front.len() ==> #[trigger] parts[i] == front[i] {
        assert(parts.subrange(0, front.len() as int) =~= front);
    }
    if within(path, base) && within(base, path) {
        assert(parts =~= front);
    }
    if same_path(path, base) {
        assert(front.subrange(0, front.len() as int) =~= front);
    }
}

/// The name at the end of a path is its last piece, and what stands before it is
/// the directory that holds it. The root has no name and lies in no directory.
pub proof fn law_last_name(path: Seq<u8>, name: Seq<u8>)
    requires
        one_piece(name),
        name.len() > 0,
        name != seq![46u8],
        name != seq![46u8, 46],
    ensures
        file_name(name) == Some(name),
        parent_components(name) == Some(Seq::<Seq<u8>>::empty()),
        path.len() > 0 ==> file_name(path + seq![47u8] + name) == Some(name),
        path.len() > 0 ==> parent_components(path + seq![47u8] + name) == Some(components(path)),
        path.len() > 0 ==> file_name(path + seq![47u8, 46, 46]) is None,
        file_name(seq![47u8]) is None,
        parent_components(seq![47u8]) is None,
        file_name(Seq::empty()) is None,
        parent_components(Seq::empty()) is None,
{
    let up = seq![46u8, 46];
    let nothing = Seq::<u8>::empty();
    law_components_one_by_one(path, name);
    law_components_one_by_one(path, up);
    law_components_one_by_one(path, nothing);
    assert(seq![46u8] =~= here_part());
    assert(up =~= up_part());
    assert(seq![47u8] =~= root_part());
    assert(name[0] != 47);
    assert(components(name).last() == name);
    assert(components(name).drop_last() =~= Seq::empty());
    assert(seq![47u8] + nothing =~= seq![47u8]);
    assert(components(seq![47u8]).last() == root_part());
    assert(up.len() == 2 && here_part().len() == 1);
    if path.len() > 0 {
        assert(components(path).push(name).drop_last() =~= components(path));
        assert(components(path).push(name).last() == name);
        assert(path + seq![47u8, 46, 46] =~= path + seq![47u8] + up);
        assert(components(path).push(up).last() == up);
    }
}

/// The views of a list are those of its items, one by one and in their order.
pub proof fn law_byte_views(pieces: Seq<Vec<u8>>)
    ensures
        byte_views(pieces).len() == pieces.len(),
        forall|i: int| 0 <= i < pieces.len() ==> #[trigger] byte_views(pieces)[i] == pieces[i]@,
{
}

/// A path is its bytes.
pub proof fn law_path_is_its_bytes(path: FilePath)
    ensures
        path@ == path.bytes@,
{
}

} // verus!
