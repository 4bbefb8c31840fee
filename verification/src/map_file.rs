//! A memory map written like a file: a position that writes and seeks move, and the
//! stretch behind it that is still to be flushed.

use memmap2::MmapMut;
use vstd::prelude::*;

verus! {

/// A writable memory map.
#[verifier::external_type_specification]
#[verifier::external_body]
pub struct ExMmapMut(MmapMut);

/// The bytes that a memory map holds. Nothing but the map itself changes them while it
/// is there: that is what whoever maps a file vouches for.
pub uninterp spec fn mapped_bytes(map: MmapMut) -> Seq<u8>;

/// `MmapMut` dereferences to the slice of its bytes, which has their number for its
/// length.
#[verifier::external_body]
pub(crate) fn mapped_len(map: &MmapMut) -> (n: usize)
    ensures
        n == mapped_bytes(*map).len(),
{
    map.len()
}

/// `MmapMut` dereferences to the mutable slice of its bytes: the first `n` bytes of
/// `buf` are copied to the place `at`, and the other bytes keep their values.
#[verifier::external_body]
pub(crate) fn copy_into_map(map: &mut MmapMut, at: usize, buf: &[u8], n: usize)
    requires
        n <= buf@.len(),
        at + n <= mapped_bytes(*old(map)).len(),
    ensures
        mapped_bytes(*final(map)) == overwritten(
            mapped_bytes(*old(map)),
            at as int,
            buf@.take(n as int),
        ),
{
    map[at..][..n].copy_from_slice(&buf[..n])
}

/// `bytes` with `data` in place of what stood at `at`.
pub open spec fn overwritten(bytes: Seq<u8>, at: int, data: Seq<u8>) -> Seq<u8> {
    bytes.take(at) + data + bytes.skip(at + data.len())
}

/// Where a seek goes.
#[derive(Clone, Copy, PartialEq, Eq, Debug)]
pub enum SeekFrom {
    /// To a place counted from the start.
    Start(u64),
    /// To a place counted from the end.
    End(i64),
    /// To a place counted from the current position.
    Current(i64),
}

/// Why a seek was refused.
#[derive(Clone, Copy, PartialEq, Eq, Debug, Structural)]
pub enum SeekError {
    /// The place lies outside the file.
    OutOfRange,
}

/// What a mapped file is: its bytes, its length, the position of the next write, and
/// the place from which on writes have not been flushed.
#[verifier::ext_equal]
pub struct MapState {
    pub bytes: Seq<u8>,
    pub len: nat,
    pub write_pos: nat,
    pub flush_pos: nat,
}

/// The distance that a signed offset stands for, as a position.
pub open spec fn distance(offset: i64) -> usize {
    (if offset < 0 {
        -offset
    } else {
        offset as int
    }) as usize
}

impl MapState {
    /// The file lies inside the map, and nothing ahead of the position is to be flushed.
    pub open spec fn valid(self) -> bool {
        &&& self.len <= self.bytes.len() <= usize::MAX
        &&& self.flush_pos <= self.write_pos <= usize::MAX
    }

    /// True where the position lies inside the file, so that a write is possible.
    pub open spec fn writable(self) -> bool {
        self.write_pos <= self.len
    }

    /// The number of bytes out of `count` that there is room for.
    pub open spec fn accepted(self, count: nat) -> nat {
        if self.len - self.write_pos < count {
            (self.len - self.write_pos) as nat
        } else {
            count
        }
    }

    /// The file after a write: as much of `buf` as there is room for stands at the
    /// position, which moves behind it.
    pub open spec fn after_write(self, buf: Seq<u8>) -> MapState {
        let n = self.accepted(buf.len());
        MapState {
            bytes: overwritten(self.bytes, self.write_pos as int, buf.take(n as int)),
            write_pos: self.write_pos + n,
            ..self
        }
    }

    /// The place that a seek goes to, or the refusal. Only from the start and from the
    /// end is the length of the file a limit.
    pub open spec fn target(self, position: SeekFrom) -> Result<nat, SeekError> {
        match position {
            SeekFrom::Start(pos) => if pos > self.len {
                Err(SeekError::OutOfRange)
            } else {
                Ok(pos as nat)
            },
            SeekFrom::End(pos) => if pos > 0 || -pos > self.len {
                Err(SeekError::OutOfRange)
            } else {
                Ok((self.len + pos) as nat)
            },
            SeekFrom::Current(pos) => if pos < 0 {
                if distance(pos) > self.write_pos {
                    Err(SeekError::OutOfRange)
                } else {
                    Ok((self.write_pos - distance(pos)) as nat)
                }
            } else {
                if self.write_pos + distance(pos) > usize::MAX {
                    Err(SeekError::OutOfRange)
                } else {
                    Ok(self.write_pos + distance(pos) as nat)
                }
            },
        }
    }

    /// The file after a seek: what had not been flushed is forgotten. A refused seek
    /// changes nothing.
    pub open spec fn after_seek(self, position: SeekFrom) -> MapState {
        match self.target(position) {
            Ok(pos) => MapState { write_pos: pos, flush_pos: pos, ..self },
            Err(_) => self,
        }
    }

    /// The stretch that a flush has to cover: where it begins, and how long it is.
    pub open spec fn pending(self) -> (int, int) {
        (self.flush_pos as int, self.write_pos - self.flush_pos)
    }

    /// The file after everything up to the position has been flushed.
    pub open spec fn after_flush(self) -> MapState {
        MapState { flush_pos: self.write_pos, ..self }
    }
}

/// A file in a memory map.
pub struct MapFile {
    map: MmapMut,
    len: usize,
    write_pos: usize,
    flush_pos: usize,
}

impl View for MapFile {
    type V = MapState;

    closed spec fn view(&self) -> MapState {
        MapState {
            bytes: mapped_bytes(self.map),
            len: self.len as nat,
            write_pos: self.write_pos as nat,
            flush_pos: self.flush_pos as nat,
        }
    }
}

impl MapFile {
    /// The file of the first `len` bytes of the map, which has to hold as many.
    pub fn new(map: MmapMut, len: usize) -> (r: MapFile)
        requires
            len <= mapped_bytes(map).len(),
        ensures
            r@ == (MapState {
                bytes: mapped_bytes(map),
                len: len as nat,
                write_pos: 0,
                flush_pos: 0,
            }),
            r@.valid(),
    {
        let n = mapped_len(&map);
        assert(n == mapped_bytes(map).len());
        MapFile { map, len, write_pos: 0, flush_pos: 0 }
    }

    /// The file of the first `len` bytes of the map, where it holds as many.
    pub fn try_new(map: MmapMut, len: usize) -> (r: Option<MapFile>)
        ensures
            r is Some <==> len <= mapped_bytes(map).len(),
            r matches Some(file) ==> file@.valid() && file@ == (MapState {
                bytes: mapped_bytes(map),
                len: len as nat,
                write_pos: 0,
                flush_pos: 0,
            }),
    {
        if len <= mapped_len(&map) {
            Some(MapFile::new(map, len))
        } else {
            None
        }
    }

    /// Writes as much of `buf` as there is room for, and tells how much that was.
    pub fn poll_write(&mut self, buf: &[u8]) -> (amt: usize)
        requires
            old(self)@.valid(),
            old(self)@.writable(),
        ensures
            amt == old(self)@.accepted(buf@.len()),
            final(self)@ == old(self)@.after_write(buf@),
            final(self)@.valid(),
    {
        let remainder_len = self.len - self.write_pos;
        let amt: usize = if remainder_len < buf.len() {
            remainder_len
        } else {
            buf.len()
        };
        copy_into_map(&mut self.map, self.write_pos, buf, amt);
        self.write_pos = self.write_pos + amt;
        amt
    }

    /// Moves the position.
    pub fn start_seek(&mut self, position: SeekFrom) -> (r: Result<(), SeekError>)
        requires
            old(self)@.valid(),
        ensures
            r is Ok <==> old(self)@.target(position) is Ok,
            r matches Err(e) ==> old(self)@.target(position) == Err::<nat, SeekError>(e),
            final(self)@ == old(self)@.after_seek(position),
            final(self)@.valid(),
    {
        match position {
            SeekFrom::Current(pos) => {
                let pos_a: u64 = magnitude(pos);
                let offset = pos_a as usize;
                let target = if pos < 0 {
                    self.write_pos.checked_sub(offset)
                } else {
                    self.write_pos.checked_add(offset)
                };
                match target {
                    Some(pos) => {
                        self.write_pos = pos;
                    },
                    None => {
                        return Err(SeekError::OutOfRange);
                    },
                }
            },
            SeekFrom::Start(pos) => {
                if pos > self.len as u64 {
                    return Err(SeekError::OutOfRange);
                }
                self.write_pos = pos as usize;
            },
            SeekFrom::End(pos) => {
                let pos_a: u64 = magnitude(pos);
                if pos > 0 || pos_a > self.len as u64 {
                    return Err(SeekError::OutOfRange);
                }
                self.write_pos = self.len - pos_a as usize;
            },
        }
        self.flush_pos = self.write_pos;
        Ok(())
    }

    /// The position, as a finished seek reports it.
    pub fn poll_complete(&self) -> (r: u64)
        requires
            self@.valid(),
        ensures
            r == self@.write_pos,
    {
        self.write_pos as u64
    }

    /// The stretch that a flush has to cover: where it begins, and how long it is.
    pub fn flush_range(&self) -> (r: (usize, usize))
        requires
            self@.valid(),
        ensures
            (r.0 as int, r.1 as int) == self@.pending(),
            r.0 == self@.flush_pos,
            r.1 == self@.write_pos - self@.flush_pos,
    {
        (self.flush_pos, self.write_pos - self.flush_pos)
    }

    /// Takes note that the stretch to be flushed has been.
    pub fn flushed(&mut self)
        requires
            old(self)@.valid(),
        ensures
            final(self)@ == old(self)@.after_flush(),
            final(self)@.valid(),
    {
        let flush_len = self.write_pos - self.flush_pos;
        self.flush_pos = self.flush_pos + flush_len;
    }

    /// True where a write is possible.
    pub fn is_writable(&self) -> (r: bool)
        ensures
            r == self@.writable(),
    {
        self.write_pos <= self.len
    }

    /// The map that holds the file.
    pub fn map(&self) -> (r: &MmapMut)
        ensures
            mapped_bytes(*r) == self@.bytes,
    {
        &self.map
    }
}

/// The absolute value of an offset.
fn magnitude(offset: i64) -> (r: u64)
    ensures
        r == if offset < 0 {
            -offset
        } else {
            offset as int
        },
{
    if offset < 0 {
        (-(offset as i128)) as u64
    } else {
        offset as u64
    }
}

/// What a write has put into the file stands where the position was, and no other byte
/// has changed.
pub proof fn law_write_lands(file: MapState, buf: Seq<u8>)
    requires
        file.valid(),
        file.writable(),
    ensures
        ({
            let after = file.after_write(buf);
            let n = file.accepted(buf.len());
            &&& after.bytes.len() == file.bytes.len()
            &&& after.bytes.subrange(file.write_pos as int, (file.write_pos + n) as int)
                == buf.take(n as int)
            &&& forall|i: int|
                0 <= i < file.bytes.len() && !(file.write_pos <= i < file.write_pos + n)
                    ==> #[trigger] after.bytes[i] == file.bytes[i]
        }),
{
    let n = file.accepted(buf.len());
    assert(file.after_write(buf).bytes.subrange(file.write_pos as int, (file.write_pos + n) as int)
        =~= buf.take(n as int));
}

/// A write keeps inside the file: behind its length nothing changes, and the position
/// stays writable.
pub proof fn law_write_stays_inside(file: MapState, buf: Seq<u8>)
    requires
        file.valid(),
        file.writable(),
    ensures
        file.after_write(buf).writable(),
        file.after_write(buf).valid(),
        file.after_write(buf).bytes.skip(file.len as int) == file.bytes.skip(file.len as int),
        file.accepted(buf.len()) < buf.len() ==> file.after_write(buf).write_pos == file.len,
{
    assert(file.after_write(buf).bytes.skip(file.len as int) =~= file.bytes.skip(file.len as int));
}

/// Two writes one after the other do what one write of both texts does, as long as the
/// first found room for all of its bytes.
pub proof fn law_writes_join(file: MapState, first: Seq<u8>, second: Seq<u8>)
    requires
        file.valid(),
        file.writable(),
        file.accepted(first.len()) == first.len(),
    ensures
        file.after_write(first).after_write(second) == file.after_write(first + second),
{
    let both = first + second;
    let a = file.after_write(first);
    let b = a.after_write(second);
    assert(first.take(first.len() as int) =~= first);
    assert(both.take(file.accepted(both.len()) as int) =~= first + second.take(
        a.accepted(second.len()) as int,
    ));
    assert(b.bytes =~= file.after_write(both).bytes);
}

/// A seek that is counted from the start or from the end leaves the position inside the
/// file.
pub proof fn law_seek_stays_inside(file: MapState, position: SeekFrom)
    requires
        file.valid(),
        file.target(position) is Ok,
        !(position is Current),
    ensures
        file.after_seek(position).writable(),
{
}

/// After a seek to a place inside the file, a write begins at that place.
pub proof fn law_seek_then_write(file: MapState, position: SeekFrom, buf: Seq<u8>)
    requires
        file.valid(),
        file.target(position) is Ok,
        file.target(position)->Ok_0 <= file.len,
    ensures
        ({
            let at = file.target(position)->Ok_0;
            let there = file.after_seek(position);
            let n = there.accepted(buf.len());
            &&& there.writable()
            &&& there.bytes == file.bytes
            &&& there.after_write(buf).bytes.subrange(at as int, (at + n) as int) == buf.take(
                n as int,
            )
        }),
{
    law_write_lands(file.after_seek(position), buf);
}

/// A refused seek leaves the file as it was.
pub proof fn law_refused_seek(file: MapState, position: SeekFrom)
    requires
        file.target(position) is Err,
    ensures
        file.after_seek(position) == file,
{
}

/// What is to be flushed is what has been written since the last seek or flush: a write
/// adds its bytes, a seek and a flush leave nothing.
pub proof fn law_pending_flush(file: MapState, buf: Seq<u8>, position: SeekFrom)
    requires
        file.valid(),
        file.writable(),
    ensures
        file.after_write(buf).flush_pos == file.flush_pos,
        file.after_write(buf).write_pos - file.after_write(buf).flush_pos == file.write_pos
            - file.flush_pos + file.accepted(buf.len()),
        file.target(position) is Ok ==> file.after_seek(position).flush_pos == file.after_seek(
            position,
        ).write_pos,
        file.after_flush().flush_pos == file.after_flush().write_pos,
        file.after_flush().bytes == file.bytes,
{
}

/// As much of a write is taken as there is room for: all of it, or what fills the file.
pub proof fn law_room_is_used(file: MapState, count: nat)
    requires
        file.valid(),
        file.writable(),
    ensures
        file.accepted(count) <= count,
        file.write_pos + file.accepted(count) <= file.len,
        file.accepted(count) < count ==> file.write_pos + file.accepted(count) == file.len,
{
}

/// A write moves the position behind what it has written. The length of the file, and the place
/// from which on it has not been flushed, stay.
pub proof fn law_write_moves_the_position(file: MapState, buf: Seq<u8>)
    requires
        file.valid(),
        file.writable(),
    ensures
        file.after_write(buf).write_pos == file.write_pos + file.accepted(buf.len()),
        file.after_write(buf).len == file.len,
        file.after_write(buf).flush_pos == file.flush_pos,
{
}

/// A write is possible exactly where the position is not behind the end of the file.
pub proof fn law_writable(file: MapState)
    ensures
        file.writable() <==> !(file.write_pos > file.len),
{
}

/// A seek from the start goes where it says, up to the end of the file. One from the end goes to
/// the same place as the one from the start that is as far from the end, and none goes behind
/// the end.
pub proof fn law_seeks_from_both_ends(file: MapState, place: u64, back: i64)
    requires
        file.valid(),
    ensures
        place <= file.len ==> file.target(SeekFrom::Start(place)) == Ok::<nat, SeekError>(
            place as nat,
        ),
        place > file.len ==> file.target(SeekFrom::Start(place)) is Err,
        back > 0 ==> file.target(SeekFrom::End(back)) is Err,
        back <= 0 && file.len + back < 0 ==> file.target(SeekFrom::End(back)) is Err,
        back <= 0 && file.len + back == place ==> file.target(SeekFrom::End(back)) == file.target(
            SeekFrom::Start(place),
        ),
{
}

/// A seek from the position moves it by what it says, forth or back. It is refused exactly where
/// that would lead before the start or beyond what a position can be.
pub proof fn law_seeks_from_the_position(file: MapState, offset: i64)
    requires
        file.valid(),
        -usize::MAX <= offset <= usize::MAX,
    ensures
        0 <= file.write_pos + offset <= usize::MAX ==> file.target(SeekFrom::Current(offset))
            == Ok::<nat, SeekError>((file.write_pos + offset) as nat),
        !(0 <= file.write_pos + offset <= usize::MAX) ==> file.target(SeekFrom::Current(offset))
            == Err::<nat, SeekError>(SeekError::OutOfRange),
{
}

/// A seek that is not refused moves the position to its target and leaves nothing to be flushed.
/// The bytes and the length stay.
pub proof fn law_seek_moves_the_position(file: MapState, position: SeekFrom, target: nat)
    requires
        file.target(position) == Ok::<nat, SeekError>(target),
    ensures
        file.after_seek(position).write_pos == target,
        file.after_seek(position).flush_pos == target,
        file.after_seek(position).bytes == file.bytes,
        file.after_seek(position).len == file.len,
{
}

/// A flush covers what has been written since the last seek or flush, and no more: nothing at
/// first, after a seek or after a flush, and what a write has taken after that write.
pub proof fn law_flush_covers_the_writes(file: MapState, buf: Seq<u8>)
    requires
        file.valid(),
        file.writable(),
    ensures
        file.pending().0 + file.pending().1 == file.write_pos,
        file.after_flush().pending() == (file.write_pos as int, 0int),
        file.after_write(buf).pending().0 == file.pending().0,
        file.after_write(buf).pending().1 == file.pending().1 + file.accepted(buf.len()),
{
}

/// A flush changes nothing but the place from which on the file has not been flushed.
pub proof fn law_flush_keeps_the_file(file: MapState)
    ensures
        file.after_flush().bytes == file.bytes,
        file.after_flush().len == file.len,
        file.after_flush().write_pos == file.write_pos,
        file.after_flush().flush_pos == file.write_pos,
{
}

} // verus!
