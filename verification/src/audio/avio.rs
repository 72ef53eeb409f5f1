//! Uploaded bytes as a seekable input for a demuxer.

use crate::names;
use vstd::prelude::*;
use vstd::slice::slice_subrange;
use vstd::string::*;

verus! {

/// The bit by which a demuxer asks for the size of its input.
pub const SIZE_QUERY: i32 = 0x10000;

/// Every bit but the one by which a demuxer says that a seek may be slow.
pub const WITHOUT_FORCE: i32 = -0x20001;

/// Why a read or a seek is refused.
#[derive(Clone, Copy, Debug, PartialEq, Eq, Structural)]
pub enum CursorError {
    /// The arguments are wrong.
    Invalid,
    /// A number does not fit.
    Overflow,
    /// Everything has been read.
    EndOfFile,
}

/// What is wrong with an upload.
#[derive(Clone, Copy, Debug, PartialEq, Eq, Structural)]
pub enum UploadError {
    Empty,
    /// The extension cannot be part of a file name.
    Extension,
}

impl UploadError {
    pub open spec fn text(self) -> Seq<char> {
        match self {
            UploadError::Empty => "uploaded audio is empty"@,
            UploadError::Extension => "uploaded audio extension contains NUL"@,
        }
    }

    /// The message for the user.
    pub fn message(&self) -> (result: &'static str)
        ensures
            result@ == self.text(),
    {
        match self {
            UploadError::Empty => "uploaded audio is empty",
            UploadError::Extension => "uploaded audio extension contains NUL",
        }
    }
}

/// Where a seek starts from.
#[derive(Clone, Copy, Debug, PartialEq, Eq, Structural)]
pub enum Origin {
    Start,
    Current,
    End,
}

/// `libc::SEEK_SET`, which is zero on every target.
#[verifier::external_body]
fn seek_set() -> (result: i32)
    ensures
        result == 0,
{
    libc::SEEK_SET
}

/// `libc::SEEK_CUR`, which is one on every target.
#[verifier::external_body]
fn seek_cur() -> (result: i32)
    ensures
        result == 1,
{
    libc::SEEK_CUR
}

/// `libc::SEEK_END`, which is two on every target.
#[verifier::external_body]
fn seek_end() -> (result: i32)
    ensures
        result == 2,
{
    libc::SEEK_END
}

/// The origin that a number stands for.
pub open spec fn origin(whence: int) -> Option<Origin> {
    if whence == 0 {
        Some(Origin::Start)
    } else if whence == 1 {
        Some(Origin::Current)
    } else if whence == 2 {
        Some(Origin::End)
    } else {
        None
    }
}

/// See [`origin`].
fn origin_of(whence: i32) -> (result: Option<Origin>)
    ensures
        result == origin(whence as int),
{
    if whence == seek_set() {
        Some(Origin::Start)
    } else if whence == seek_cur() {
        Some(Origin::Current)
    } else if whence == seek_end() {
        Some(Origin::End)
    } else {
        None
    }
}

/// A place in some bytes.
#[derive(Clone, Copy, Debug)]
pub struct MemoryCursor<'a> {
    bytes: &'a [u8],
    position: usize,
}

/// Where a seek goes, or why it is refused. A query for the size is answered
/// by the size.
pub open spec fn sought(length: int, position: int, offset: int, whence: i32) -> Result<
    int,
    CursorError,
> {
    if whence & SIZE_QUERY != 0 {
        if length <= i64::MAX {
            Ok(length)
        } else {
            Err(CursorError::Overflow)
        }
    } else {
        match origin((whence & WITHOUT_FORCE) as int) {
            None => Err(CursorError::Invalid),
            Some(origin) => {
                let base = match origin {
                    Origin::Start => 0,
                    Origin::Current => position,
                    Origin::End => length,
                };
                if base > i64::MAX || base + offset > i64::MAX || base + offset < i64::MIN {
                    Err(CursorError::Overflow)
                } else if 0 <= base + offset <= length {
                    Ok(base + offset)
                } else {
                    Err(CursorError::Invalid)
                }
            },
        }
    }
}

impl<'a> MemoryCursor<'a> {
    /// All the bytes.
    pub closed spec fn contents(&self) -> Seq<u8> {
        self.bytes@
    }

    /// How many bytes lie before the cursor.
    pub closed spec fn place(&self) -> int {
        self.position as int
    }

    /// Whether the cursor is inside the bytes or at their end.
    pub closed spec fn valid(&self) -> bool {
        self.position <= self.bytes@.len()
    }

    /// The cursor lies in the bytes or at their end.
    pub proof fn lemma_place(&self)
        requires
            self.valid(),
        ensures
            0 <= self.place() <= self.contents().len(),
    {
    }

    /// A cursor at the start of an upload.
    pub fn new(bytes: &'a [u8]) -> (result: Result<Self, UploadError>)
        ensures
            match result {
                Ok(cursor) => {
                    &&& bytes@.len() > 0
                    &&& cursor.valid()
                    &&& cursor.contents() == bytes@
                    &&& cursor.place() == 0
                },
                Err(error) => bytes@.len() == 0 && error == UploadError::Empty,
            },
    {
        if bytes.len() == 0 {
            return Err(UploadError::Empty);
        }
        Ok(MemoryCursor { bytes, position: 0 })
    }

    /// The next bytes, at most as many as are asked for.
    pub fn read_packet(&mut self, buffer_size: i32) -> (result: Result<&'a [u8], CursorError>)
        requires
            old(self).valid(),
        ensures
            final(self).valid(),
            final(self).contents() == old(self).contents(),
            ({
                let start = old(self).place();
                let available = old(self).contents().len() - start;
                match result {
                    Ok(bytes) => {
                        let count = if buffer_size < available {
                            buffer_size as int
                        } else {
                            available
                        };
                        &&& buffer_size > 0
                        &&& available > 0
                        &&& bytes@ == old(self).contents().subrange(start, start + count)
                        &&& final(self).place() == start + count
                    },
                    Err(CursorError::Invalid) => buffer_size <= 0 && final(self).place() == start,
                    Err(error) => {
                        &&& error == CursorError::EndOfFile
                        &&& buffer_size > 0
                        &&& available == 0
                        &&& final(self).place() == start
                    },
                }
            }),
    {
        if buffer_size <= 0 {
            return Err(CursorError::Invalid);
        }
        if self.position == self.bytes.len() {
            return Err(CursorError::EndOfFile);
        }
        let available: usize = self.bytes.len() - self.position;
        let requested = buffer_size as usize;
        let count = if requested < available {
            requested
        } else {
            available
        };
        let bytes = slice_subrange(self.bytes, self.position, self.position + count);
        self.position = self.position + count;
        Ok(bytes)
    }

    /// Moves the cursor, or tells the size.
    pub fn seek(&mut self, offset: i64, whence: i32) -> (result: Result<i64, CursorError>)
        requires
            old(self).valid(),
        ensures
            final(self).valid(),
            final(self).contents() == old(self).contents(),
            ({
                let expected = sought(
                    old(self).contents().len() as int,
                    old(self).place(),
                    offset as int,
                    whence,
                );
                match result {
                    Ok(value) => {
                        &&& expected == Ok::<int, CursorError>(value as int)
                        &&& final(self).place() == if whence & SIZE_QUERY != 0 {
                            old(self).place()
                        } else {
                            value as int
                        }
                    },
                    Err(error) => expected == Err::<int, CursorError>(error) && final(self).place()
                        == old(self).place(),
                }
            }),
    {
        let length = self.bytes.len();
        if whence & SIZE_QUERY != 0 {
            if length as u64 > i64::MAX as u64 {
                return Err(CursorError::Overflow);
            }
            return Ok(length as i64);
        }
        let base: usize = match origin_of(whence & WITHOUT_FORCE) {
            None => return Err(CursorError::Invalid),
            Some(Origin::Start) => 0,
            Some(Origin::Current) => self.position,
            Some(Origin::End) => length,
        };
        if base as u64 > i64::MAX as u64 {
            return Err(CursorError::Overflow);
        }
        let position: i64 = match (base as i64).checked_add(offset) {
            None => return Err(CursorError::Overflow),
            Some(position) => position,
        };
        if position < 0 || position as u64 > length as u64 {
            return Err(CursorError::Invalid);
        }
        self.position = position as usize;
        Ok(position)
    }
}

/// How many bytes are asked for in some reads.
pub open spec fn asked_for(sizes: Seq<i32>) -> int
    decreases sizes.len(),
{
    if sizes.len() == 0 {
        0
    } else {
        asked_for(sizes.drop_last()) + sizes.last()
    }
}

/// The bytes that reads of these sizes give one after the other.
pub open spec fn read_through(contents: Seq<u8>, start: int, sizes: Seq<i32>) -> Seq<u8>
    decreases sizes.len(),
{
    if sizes.len() == 0 {
        seq![]
    } else {
        let before = read_through(contents, start, sizes.drop_last());
        let place = start + before.len();
        before + contents.subrange(
            place,
            vstd::math::min(place + sizes.last(), contents.len() as int),
        )
    }
}

/// However an upload is read, its bytes come in order and without a gap, as
/// they would from a file.
pub proof fn lemma_read_through(contents: Seq<u8>, start: int, sizes: Seq<i32>)
    requires
        0 <= start <= contents.len(),
        forall|i: int| 0 <= i < sizes.len() ==> #[trigger] sizes[i] > 0,
    ensures
        asked_for(sizes) >= 0,
        read_through(contents, start, sizes) == contents.subrange(
            start,
            vstd::math::min(start + asked_for(sizes), contents.len() as int),
        ),
    decreases sizes.len(),
{
    if sizes.len() > 0 {
        let rest = sizes.drop_last();
        assert forall|i: int| 0 <= i < rest.len() implies #[trigger] rest[i] > 0 by {
            assert(sizes[i] > 0);
        }
        lemma_read_through(contents, start, rest);
        assert(sizes[sizes.len() - 1] > 0);
    }
    assert(read_through(contents, start, sizes) =~= contents.subrange(
        start,
        vstd::math::min(start + asked_for(sizes), contents.len() as int),
    ));
}

/// A text without the dots that it begins with.
pub open spec fn without_dots(text: Seq<char>) -> Seq<char>
    decreases text.len(),
{
    if text.len() > 0 && text[0] == '.' {
        without_dots(text.skip(1))
    } else {
        text
    }
}

/// The name under which an upload is shown to the demuxer: the extension may
/// be given with or without a dot, or be empty.
pub open spec fn upload_text(file_extension: Seq<char>) -> Seq<char> {
    if file_extension.len() == 0 {
        "upload"@
    } else {
        "upload."@ + without_dots(file_extension)
    }
}

/// See [`upload_text`]. A name with a NUL in it cannot be handed over.
pub fn upload_name(file_extension: &str) -> (result: Result<String, UploadError>)
    ensures
        match result {
            Ok(name) => name@ == upload_text(file_extension@) && !file_extension@.contains('\0'),
            Err(error) => file_extension@.contains('\0') && error == UploadError::Extension,
        },
{
    let length = file_extension.unicode_len();
    let mut index: usize = 0;
    while index < length
        invariant
            index <= length == file_extension@.len(),
            forall|i: int| 0 <= i < index ==> file_extension@[i] != '\0',
        decreases length - index,
    {
        if file_extension.get_char(index) == '\0' {
            assert(file_extension@.contains(file_extension@[index as int]));
            return Err(UploadError::Extension);
        }
        index = index + 1;
    }
    if length == 0 {
        return Ok("upload".to_owned());
    }
    let mut start: usize = 0;
    assert(file_extension@.skip(0) =~= file_extension@);
    while start < length && file_extension.get_char(start) == '.'
        invariant
            start <= length == file_extension@.len(),
            without_dots(file_extension@) == without_dots(file_extension@.skip(start as int)),
        decreases length - start,
    {
        assert(file_extension@.skip(start as int).skip(1) =~= file_extension@.skip(start + 1));
        start = start + 1;
    }
    let rest = file_extension.substring_char(start, length);
    assert(rest@ =~= file_extension@.skip(start as int));
    Ok(names::joined("upload.", rest))
}

/// An earlier place can be reached again from the start, from the cursor and
/// from the end.
pub proof fn lemma_seek_back(length: int, start: int, later: int)
    requires
        0 <= start <= later <= length <= i64::MAX,
    ensures
        sought(length, later, start, 0) == Ok::<int, CursorError>(start),
        sought(length, later, start - later, 1) == Ok::<int, CursorError>(start),
        sought(length, later, start - length, 2) == Ok::<int, CursorError>(start),
{
    assert(0i32 & 0x10000i32 == 0 && 1i32 & 0x10000i32 == 0 && 2i32 & 0x10000i32 == 0)
        by (bit_vector);
    assert(0i32 & -0x20001i32 == 0 && 1i32 & -0x20001i32 == 1 && 2i32 & -0x20001i32 == 2)
        by (bit_vector);
}

/// A seek goes as far from its origin as it says. It is refused exactly where
/// that place is outside the bytes, and the bit by which a demuxer says that a
/// seek may be slow makes no difference.
pub proof fn lemma_seek(length: int, position: int, offset: int)
    requires
        0 <= position <= length <= i64::MAX,
        i64::MIN <= offset <= i64::MAX,
    ensures
        0 <= offset <= length ==> sought(length, position, offset, 0) == Ok::<int, CursorError>(
            offset,
        ),
        0 <= position + offset <= length ==> sought(length, position, offset, 1) == Ok::<
            int,
            CursorError,
        >(position + offset),
        0 <= length + offset <= length ==> sought(length, position, offset, 2) == Ok::<
            int,
            CursorError,
        >(length + offset),
        offset < 0 || offset > length ==> sought(length, position, offset, 0) == Err::<
            int,
            CursorError,
        >(CursorError::Invalid),
        position + offset < 0 || length < position + offset <= i64::MAX ==> sought(
            length,
            position,
            offset,
            1,
        ) == Err::<int, CursorError>(CursorError::Invalid),
        position + offset > i64::MAX ==> sought(length, position, offset, 1) == Err::<
            int,
            CursorError,
        >(CursorError::Overflow),
        offset < -length || 0 < offset <= i64::MAX - length ==> sought(length, position, offset, 2)
            == Err::<int, CursorError>(CursorError::Invalid),
        offset > i64::MAX - length ==> sought(length, position, offset, 2) == Err::<
            int,
            CursorError,
        >(CursorError::Overflow),
        sought(length, position, offset, 0x20000) == sought(length, position, offset, 0),
        sought(length, position, offset, 0x20001) == sought(length, position, offset, 1),
        sought(length, position, offset, 0x20002) == sought(length, position, offset, 2),
{
    assert(0i32 & 0x10000i32 == 0 && 1i32 & 0x10000i32 == 0 && 2i32 & 0x10000i32 == 0)
        by (bit_vector);
    assert(0i32 & -0x20001i32 == 0 && 1i32 & -0x20001i32 == 1 && 2i32 & -0x20001i32 == 2)
        by (bit_vector);
    assert(0x20000i32 & 0x10000i32 == 0 && 0x20001i32 & 0x10000i32 == 0 && 0x20002i32 & 0x10000i32
        == 0) by (bit_vector);
    assert(0x20000i32 & -0x20001i32 == 0 && 0x20001i32 & -0x20001i32 == 1 && 0x20002i32
        & -0x20001i32 == 2) by (bit_vector);
}

/// A query for the size is answered by the size, wherever the cursor is and
/// whatever else is asked. Other numbers than those of the origins are refused.
pub proof fn lemma_whence(length: int, position: int, offset: int, whence: i32)
    requires
        0 <= position <= length <= i64::MAX,
    ensures
        whence == 0x10000 ==> sought(length, position, offset, whence) == Ok::<int, CursorError>(
            length,
        ),
        sought(length, position, offset, whence | 0x10000) == Ok::<int, CursorError>(length),
        3 <= whence < 0x10000 ==> sought(length, position, offset, whence) == Err::<
            int,
            CursorError,
        >(CursorError::Invalid),
        whence < 0 && whence & 0x10000 == 0 ==> sought(length, position, offset, whence) == Err::<
            int,
            CursorError,
        >(CursorError::Invalid),
{
    assert((whence | 0x10000i32) & 0x10000i32 != 0) by (bit_vector);
    assert(0x10000i32 & 0x10000i32 != 0) by (bit_vector);
    if 3 <= whence < 0x10000 {
        assert(whence & 0x10000i32 == 0 && whence & -0x20001i32 == whence) by (bit_vector)
            requires
                3 <= whence < 0x10000,
        ;
    }
    if whence < 0 {
        assert(whence & -0x20001i32 < 0) by (bit_vector)
            requires
                whence < 0,
        ;
    }
}

/// The name of an upload ends in its extension, and the extension may as well be
/// given with dots before it.
pub proof fn lemma_upload_text(file_extension: Seq<char>)
    requires
        file_extension.len() > 0,
    ensures
        upload_text(seq!['.'] + file_extension) == upload_text(file_extension),
        file_extension[0] != '.' ==> upload_text(file_extension) == "upload."@ + file_extension,
        upload_text(seq!['.']) == "upload."@,
        without_dots(file_extension).len() > 0 ==> without_dots(file_extension)[0] != '.',
    decreases file_extension.len(),
{
    let dot = seq!['.'];
    assert(dot.skip(1) =~= seq![]);
    assert(without_dots(dot.skip(1)) == dot.skip(1));
    assert("upload."@ + dot.skip(1) =~= "upload."@);
    let dotted = seq!['.'] + file_extension;
    assert(dotted.skip(1) =~= file_extension);
    if file_extension[0] == '.' {
        let rest = file_extension.skip(1);
        if rest.len() > 0 {
            lemma_upload_text(rest);
        } else {
            assert(without_dots(rest) == rest);
        }
        assert(without_dots(file_extension) == without_dots(rest));
    }
}

} // verus!
