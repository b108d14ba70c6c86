use vstd::prelude::*;
use vstd::slice::slice_subrange;
use std::io;

use crate::file::invalid_data;
use crate::file::is_invalid_data;
use crate::fmt::{decimal, push_decimal, push_str, string_from_chars};

verus! {

broadcast use vstd::layout::layout_of_primitives;

/// A type whose values take a fixed number of bytes in a binary file.
pub trait SizedChunk {
    /// The number of bytes one chunk takes.
    open spec fn chunk_len() -> nat {
        arbitrary()
    }

    /// Returns the number of bytes one chunk takes.
    fn chunk_size() -> (r: usize)
        requires
            Self::chunk_len() <= usize::MAX,
        ensures
            r == Self::chunk_len(),
    ;
}

/// A type whose values can be read from a chunk of a binary file.
pub trait ReadChunk: SizedChunk + Sized {
    /// The value that a chunk holds, read from the start of `bytes`.
    open spec fn from_bytes(bytes: Seq<u8>) -> Self {
        arbitrary()
    }

    /// Reads a value from the start of `buf`, which holds at least one
    /// chunk.
    fn from_chunk(buf: &[u8]) -> (r: io::Result<Self>)
        requires
            buf@.len() >= Self::chunk_len(),
        ensures
            r matches Ok(v) ==> v == Self::from_bytes(buf@),
    ;
}

/// A type whose values can be written as a chunk of a binary file.
pub trait WriteChunk: SizedChunk + Sized {
    /// The bytes that a value is written as.
    open spec fn to_bytes(&self) -> Seq<u8> {
        arbitrary()
    }

    /// Appends the value's bytes to `buf`.
    fn as_chunk(&self, buf: &mut Vec<u8>) -> (r: io::Result<()>)
        ensures
            r is Ok ==> final(buf)@ == old(buf)@ + self.to_bytes(),
    ;
}

/// A type whose chunks read back as the values they were written from.
pub trait Chunk: ReadChunk + WriteChunk {
    /// A value's chunk is one chunk long and reads back as the value.
    proof fn lemma_round_trip(v: Self)
        ensures
            v.to_bytes().len() == Self::chunk_len(),
            Self::from_bytes(v.to_bytes()) == v,
    ;
}

impl SizedChunk for u8 {
    open spec fn chunk_len() -> nat {
        vstd::layout::size_of::<u8>()
    }

    fn chunk_size() -> (r: usize) {
        core::mem::size_of::<u8>()
    }
}

impl ReadChunk for u8 {
    open spec fn from_bytes(bytes: Seq<u8>) -> u8 {
        bytes[0]
    }

    fn from_chunk(buf: &[u8]) -> (r: io::Result<u8>)
        ensures
            r == Ok::<u8, io::Error>(Self::from_bytes(buf@)),
    {
        Ok(buf[0])
    }
}

impl WriteChunk for u8 {
    open spec fn to_bytes(&self) -> Seq<u8> {
        seq![*self]
    }

    fn as_chunk(&self, buf: &mut Vec<u8>) -> (r: io::Result<()>)
        ensures
            r is Ok,
    {
        buf.push(*self);
        Ok(())
    }
}

impl Chunk for u8 {
    proof fn lemma_round_trip(v: u8) {
    }
}

impl SizedChunk for i8 {
    open spec fn chunk_len() -> nat {
        vstd::layout::size_of::<i8>()
    }

    fn chunk_size() -> (r: usize) {
        core::mem::size_of::<i8>()
    }
}

impl ReadChunk for i8 {
    open spec fn from_bytes(bytes: Seq<u8>) -> i8 {
        bytes[0] as i8
    }

    fn from_chunk(buf: &[u8]) -> (r: io::Result<i8>)
        ensures
            r == Ok::<i8, io::Error>(Self::from_bytes(buf@)),
    {
        Ok(buf[0] as i8)
    }
}

impl WriteChunk for i8 {
    open spec fn to_bytes(&self) -> Seq<u8> {
        seq![*self as u8]
    }

    fn as_chunk(&self, buf: &mut Vec<u8>) -> (r: io::Result<()>)
        ensures
            r is Ok,
    {
        buf.push(*self as u8);
        Ok(())
    }
}

impl Chunk for i8 {
    proof fn lemma_round_trip(v: i8) {
        assert((v as u8) as i8 == v) by (bit_vector);
    }
}

/// The little-endian bytes of a `u16`: the least significant byte first.
pub open spec fn u16_le_bytes(x: u16) -> Seq<u8> {
    seq![
        (x & 0xff) as u8,
        ((x >> 8) & 0xff) as u8,
    ]
}

/// The `u16` whose little-endian bytes are the first 2 of `b`.
pub open spec fn u16_from_le(b: Seq<u8>) -> u16 {
    (b[0] as u16) | ((b[1] as u16) << 8)
}

fn push_u16_le(buf: &mut Vec<u8>, x: u16)
    ensures
        final(buf)@ == old(buf)@ + u16_le_bytes(x),
{
    buf.push((x & 0xff) as u8);
    buf.push(((x >> 8) & 0xff) as u8);
    proof {
        assert(buf@ =~= old(buf)@ + u16_le_bytes(x));
    }
}

fn read_u16_le(buf: &[u8]) -> (r: u16)
    requires
        buf@.len() >= 2,
    ensures
        r == u16_from_le(buf@),
{
    (buf[0] as u16) | ((buf[1] as u16) << 8)
}

proof fn lemma_u16_le_round_trip(x: u16)
    ensures
        u16_le_bytes(x).len() == 2,
        u16_from_le(u16_le_bytes(x)) == x,
{
    let b = u16_le_bytes(x);
    assert(b[0] == (x & 0xff) as u8);
    assert(b[1] == ((x >> 8) & 0xff) as u8);
    assert((((x & 0xff) as u8) as u16) | (((((x >> 8) & 0xff) as u8) as u16) << 8) == x) by (bit_vector);
}

impl SizedChunk for u16 {
    open spec fn chunk_len() -> nat {
        vstd::layout::size_of::<u16>()
    }

    fn chunk_size() -> (r: usize) {
        core::mem::size_of::<u16>()
    }
}

impl ReadChunk for u16 {
    open spec fn from_bytes(bytes: Seq<u8>) -> u16 {
        u16_from_le(bytes)
    }

    fn from_chunk(buf: &[u8]) -> (r: io::Result<u16>)
        ensures
            r == Ok::<u16, io::Error>(Self::from_bytes(buf@)),
    {
        Ok(read_u16_le(buf))
    }
}

impl WriteChunk for u16 {
    open spec fn to_bytes(&self) -> Seq<u8> {
        u16_le_bytes(*self)
    }

    fn as_chunk(&self, buf: &mut Vec<u8>) -> (r: io::Result<()>)
        ensures
            r is Ok,
    {
        push_u16_le(buf, *self);
        Ok(())
    }
}

impl Chunk for u16 {
    proof fn lemma_round_trip(v: u16) {
        lemma_u16_le_round_trip(v);
    }
}

impl SizedChunk for i16 {
    open spec fn chunk_len() -> nat {
        vstd::layout::size_of::<i16>()
    }

    fn chunk_size() -> (r: usize) {
        core::mem::size_of::<i16>()
    }
}

impl ReadChunk for i16 {
    open spec fn from_bytes(bytes: Seq<u8>) -> i16 {
        u16_from_le(bytes) as i16
    }

    fn from_chunk(buf: &[u8]) -> (r: io::Result<i16>)
        ensures
            r == Ok::<i16, io::Error>(Self::from_bytes(buf@)),
    {
        Ok(read_u16_le(buf) as i16)
    }
}

impl WriteChunk for i16 {
    open spec fn to_bytes(&self) -> Seq<u8> {
        u16_le_bytes(*self as u16)
    }

    fn as_chunk(&self, buf: &mut Vec<u8>) -> (r: io::Result<()>)
        ensures
            r is Ok,
    {
        push_u16_le(buf, *self as u16);
        Ok(())
    }
}

impl Chunk for i16 {
    proof fn lemma_round_trip(v: i16) {
        lemma_u16_le_round_trip(v as u16);
        assert((v as u16) as i16 == v) by (bit_vector);
    }
}

/// A `u16` (or `i16`) chunk is little-endian: its 2 bytes, read as base-256
/// digits with the first one least significant, are the value (the
/// two's-complement value for `i16`), and a chunk is read back the same
/// way.
pub proof fn lemma_u16_chunk_little_endian(v: u16, w: i16, b: Seq<u8>)
    ensures
        v.to_bytes().len() == 2,
        v.to_bytes()[0] as int + 0x100 * (v.to_bytes()[1] as int) == v,
        w.to_bytes()[0] as int + 0x100 * (w.to_bytes()[1] as int) == w as u16,
        b.len() >= 2 ==> <u16 as ReadChunk>::from_bytes(b) == b[0] as int + 0x100 * (b[1] as int),
        b.len() >= 2 ==> <i16 as ReadChunk>::from_bytes(b) == (b[0] as int + 0x100 * (b[1] as int)) as i16,
{
    lemma_u16_le_round_trip(v);
    lemma_u16_le_round_trip(w as u16);
    lemma_u16_digits(v);
    lemma_u16_digits(w as u16);
    if b.len() >= 2 {
        let b0 = b[0];
        let b1 = b[1];
        lemma_u16_from_digits(b0, b1);
    }
}

proof fn lemma_u16_digits(x: u16)
    ensures
        u16_le_bytes(x)[0] as int + 0x100 * (u16_le_bytes(x)[1] as int) == x,
{
    let b = u16_le_bytes(x);
    assert(b[0] == (x & 0xff) as u8);
    assert(b[1] == ((x >> 8) & 0xff) as u8);
    assert(((x & 0xff) as u8) as int + 0x100 * ((((x >> 8) & 0xff) as u8) as int) == x) by (bit_vector);
}

proof fn lemma_u16_from_digits(b0: u8, b1: u8)
    ensures
        (b0 as u16) | ((b1 as u16) << 8) == b0 as int + 0x100 * (b1 as int),
{
    assert((b0 as u16) | ((b1 as u16) << 8) == b0 as int + 0x100 * (b1 as int)) by (bit_vector);
}

/// The little-endian bytes of a `u32`: the least significant byte first.
pub open spec fn u32_le_bytes(x: u32) -> Seq<u8> {
    seq![
        (x & 0xff) as u8,
        ((x >> 8) & 0xff) as u8,
        ((x >> 16) & 0xff) as u8,
        ((x >> 24) & 0xff) as u8,
    ]
}

/// The `u32` whose little-endian bytes are the first 4 of `b`.
pub open spec fn u32_from_le(b: Seq<u8>) -> u32 {
    (b[0] as u32) | ((b[1] as u32) << 8) | ((b[2] as u32) << 16) | ((b[3] as u32) << 24)
}

fn push_u32_le(buf: &mut Vec<u8>, x: u32)
    ensures
        final(buf)@ == old(buf)@ + u32_le_bytes(x),
{
    buf.push((x & 0xff) as u8);
    buf.push(((x >> 8) & 0xff) as u8);
    buf.push(((x >> 16) & 0xff) as u8);
    buf.push(((x >> 24) & 0xff) as u8);
    proof {
        assert(buf@ =~= old(buf)@ + u32_le_bytes(x));
    }
}

fn read_u32_le(buf: &[u8]) -> (r: u32)
    requires
        buf@.len() >= 4,
    ensures
        r == u32_from_le(buf@),
{
    (buf[0] as u32) | ((buf[1] as u32) << 8) | ((buf[2] as u32) << 16) | ((buf[3] as u32) << 24)
}

proof fn lemma_u32_le_round_trip(x: u32)
    ensures
        u32_le_bytes(x).len() == 4,
        u32_from_le(u32_le_bytes(x)) == x,
{
    let b = u32_le_bytes(x);
    assert(b[0] == (x & 0xff) as u8);
    assert(b[1] == ((x >> 8) & 0xff) as u8);
    assert(b[2] == ((x >> 16) & 0xff) as u8);
    assert(b[3] == ((x >> 24) & 0xff) as u8);
    assert((((x & 0xff) as u8) as u32) | (((((x >> 8) & 0xff) as u8) as u32) << 8) | (((((x >> 16) & 0xff) as u8) as u32) << 16) | (((((x >> 24) & 0xff) as u8) as u32) << 24) == x) by (bit_vector);
}

impl SizedChunk for u32 {
    open spec fn chunk_len() -> nat {
        vstd::layout::size_of::<u32>()
    }

    fn chunk_size() -> (r: usize) {
        core::mem::size_of::<u32>()
    }
}

impl ReadChunk for u32 {
    open spec fn from_bytes(bytes: Seq<u8>) -> u32 {
        u32_from_le(bytes)
    }

    fn from_chunk(buf: &[u8]) -> (r: io::Result<u32>)
        ensures
            r == Ok::<u32, io::Error>(Self::from_bytes(buf@)),
    {
        Ok(read_u32_le(buf))
    }
}

impl WriteChunk for u32 {
    open spec fn to_bytes(&self) -> Seq<u8> {
        u32_le_bytes(*self)
    }

    fn as_chunk(&self, buf: &mut Vec<u8>) -> (r: io::Result<()>)
        ensures
            r is Ok,
    {
        push_u32_le(buf, *self);
        Ok(())
    }
}

impl Chunk for u32 {
    proof fn lemma_round_trip(v: u32) {
        lemma_u32_le_round_trip(v);
    }
}

impl SizedChunk for i32 {
    open spec fn chunk_len() -> nat {
        vstd::layout::size_of::<i32>()
    }

    fn chunk_size() -> (r: usize) {
        core::mem::size_of::<i32>()
    }
}

impl ReadChunk for i32 {
    open spec fn from_bytes(bytes: Seq<u8>) -> i32 {
        u32_from_le(bytes) as i32
    }

    fn from_chunk(buf: &[u8]) -> (r: io::Result<i32>)
        ensures
            r == Ok::<i32, io::Error>(Self::from_bytes(buf@)),
    {
        Ok(read_u32_le(buf) as i32)
    }
}

impl WriteChunk for i32 {
    open spec fn to_bytes(&self) -> Seq<u8> {
        u32_le_bytes(*self as u32)
    }

    fn as_chunk(&self, buf: &mut Vec<u8>) -> (r: io::Result<()>)
        ensures
            r is Ok,
    {
        push_u32_le(buf, *self as u32);
        Ok(())
    }
}

impl Chunk for i32 {
    proof fn lemma_round_trip(v: i32) {
        lemma_u32_le_round_trip(v as u32);
        assert((v as u32) as i32 == v) by (bit_vector);
    }
}

/// A `u32` (or `i32`) chunk is little-endian: its 4 bytes, read as base-256
/// digits with the first one least significant, are the value (the
/// two's-complement value for `i32`), and a chunk is read back the same
/// way.
pub proof fn lemma_u32_chunk_little_endian(v: u32, w: i32, b: Seq<u8>)
    ensures
        v.to_bytes().len() == 4,
        v.to_bytes()[0] as int + 0x100 * (v.to_bytes()[1] as int) + 0x10000 * (v.to_bytes()[2] as int) + 0x1000000 * (v.to_bytes()[3] as int) == v,
        w.to_bytes()[0] as int + 0x100 * (w.to_bytes()[1] as int) + 0x10000 * (w.to_bytes()[2] as int) + 0x1000000 * (w.to_bytes()[3] as int) == w as u32,
        b.len() >= 4 ==> <u32 as ReadChunk>::from_bytes(b) == b[0] as int + 0x100 * (b[1] as int) + 0x10000 * (b[2] as int) + 0x1000000 * (b[3] as int),
        b.len() >= 4 ==> <i32 as ReadChunk>::from_bytes(b) == (b[0] as int + 0x100 * (b[1] as int) + 0x10000 * (b[2] as int) + 0x1000000 * (b[3] as int)) as i32,
{
    lemma_u32_le_round_trip(v);
    lemma_u32_le_round_trip(w as u32);
    lemma_u32_digits(v);
    lemma_u32_digits(w as u32);
    if b.len() >= 4 {
        let b0 = b[0];
        let b1 = b[1];
        let b2 = b[2];
        let b3 = b[3];
        lemma_u32_from_digits(b0, b1, b2, b3);
    }
}

proof fn lemma_u32_digits(x: u32)
    ensures
        u32_le_bytes(x)[0] as int + 0x100 * (u32_le_bytes(x)[1] as int) + 0x10000 * (u32_le_bytes(x)[2] as int) + 0x1000000 * (u32_le_bytes(x)[3] as int) == x,
{
    let b = u32_le_bytes(x);
    assert(b[0] == (x & 0xff) as u8);
    assert(b[1] == ((x >> 8) & 0xff) as u8);
    assert(b[2] == ((x >> 16) & 0xff) as u8);
    assert(b[3] == ((x >> 24) & 0xff) as u8);
    assert(((x & 0xff) as u8) as int + 0x100 * ((((x >> 8) & 0xff) as u8) as int) + 0x10000 * ((((x >> 16) & 0xff) as u8) as int) + 0x1000000 * ((((x >> 24) & 0xff) as u8) as int) == x) by (bit_vector);
}

proof fn lemma_u32_from_digits(b0: u8, b1: u8, b2: u8, b3: u8)
    ensures
        (b0 as u32) | ((b1 as u32) << 8) | ((b2 as u32) << 16) | ((b3 as u32) << 24) == b0 as int + 0x100 * (b1 as int) + 0x10000 * (b2 as int) + 0x1000000 * (b3 as int),
{
    assert((b0 as u32) | ((b1 as u32) << 8) | ((b2 as u32) << 16) | ((b3 as u32) << 24) == b0 as int + 0x100 * (b1 as int) + 0x10000 * (b2 as int) + 0x1000000 * (b3 as int)) by (bit_vector);
}

/// The little-endian bytes of a `u64`: the least significant byte first.
pub open spec fn u64_le_bytes(x: u64) -> Seq<u8> {
    seq![
        (x & 0xff) as u8,
        ((x >> 8) & 0xff) as u8,
        ((x >> 16) & 0xff) as u8,
        ((x >> 24) & 0xff) as u8,
        ((x >> 32) & 0xff) as u8,
        ((x >> 40) & 0xff) as u8,
        ((x >> 48) & 0xff) as u8,
        ((x >> 56) & 0xff) as u8,
    ]
}

/// The `u64` whose little-endian bytes are the first 8 of `b`.
pub open spec fn u64_from_le(b: Seq<u8>) -> u64 {
    (b[0] as u64) | ((b[1] as u64) << 8) | ((b[2] as u64) << 16) | ((b[3] as u64) << 24) | ((b[4] as u64) << 32) | ((b[5] as u64) << 40) | ((b[6] as u64) << 48) | ((b[7] as u64) << 56)
}

fn push_u64_le(buf: &mut Vec<u8>, x: u64)
    ensures
        final(buf)@ == old(buf)@ + u64_le_bytes(x),
{
    buf.push((x & 0xff) as u8);
    buf.push(((x >> 8) & 0xff) as u8);
    buf.push(((x >> 16) & 0xff) as u8);
    buf.push(((x >> 24) & 0xff) as u8);
    buf.push(((x >> 32) & 0xff) as u8);
    buf.push(((x >> 40) & 0xff) as u8);
    buf.push(((x >> 48) & 0xff) as u8);
    buf.push(((x >> 56) & 0xff) as u8);
    proof {
        assert(buf@ =~= old(buf)@ + u64_le_bytes(x));
    }
}

fn read_u64_le(buf: &[u8]) -> (r: u64)
    requires
        buf@.len() >= 8,
    ensures
        r == u64_from_le(buf@),
{
    (buf[0] as u64) | ((buf[1] as u64) << 8) | ((buf[2] as u64) << 16) | ((buf[3] as u64) << 24) | ((buf[4] as u64) << 32) | ((buf[5] as u64) << 40) | ((buf[6] as u64) << 48) | ((buf[7] as u64) << 56)
}

proof fn lemma_u64_le_round_trip(x: u64)
    ensures
        u64_le_bytes(x).len() == 8,
        u64_from_le(u64_le_bytes(x)) == x,
{
    let b = u64_le_bytes(x);
    assert(b[0] == (x & 0xff) as u8);
    assert(b[1] == ((x >> 8) & 0xff) as u8);
    assert(b[2] == ((x >> 16) & 0xff) as u8);
    assert(b[3] == ((x >> 24) & 0xff) as u8);
    assert(b[4] == ((x >> 32) & 0xff) as u8);
    assert(b[5] == ((x >> 40) & 0xff) as u8);
    assert(b[6] == ((x >> 48) & 0xff) as u8);
    assert(b[7] == ((x >> 56) & 0xff) as u8);
    assert((((x & 0xff) as u8) as u64) | (((((x >> 8) & 0xff) as u8) as u64) << 8) | (((((x >> 16) & 0xff) as u8) as u64) << 16) | (((((x >> 24) & 0xff) as u8) as u64) << 24) | (((((x >> 32) & 0xff) as u8) as u64) << 32) | (((((x >> 40) & 0xff) as u8) as u64) << 40) | (((((x >> 48) & 0xff) as u8) as u64) << 48) | (((((x >> 56) & 0xff) as u8) as u64) << 56) == x) by (bit_vector);
}

impl SizedChunk for u64 {
    open spec fn chunk_len() -> nat {
        vstd::layout::size_of::<u64>()
    }

    fn chunk_size() -> (r: usize) {
        core::mem::size_of::<u64>()
    }
}

impl ReadChunk for u64 {
    open spec fn from_bytes(bytes: Seq<u8>) -> u64 {
        u64_from_le(bytes)
    }

    fn from_chunk(buf: &[u8]) -> (r: io::Result<u64>)
        ensures
            r == Ok::<u64, io::Error>(Self::from_bytes(buf@)),
    {
        Ok(read_u64_le(buf))
    }
}

impl WriteChunk for u64 {
    open spec fn to_bytes(&self) -> Seq<u8> {
        u64_le_bytes(*self)
    }

    fn as_chunk(&self, buf: &mut Vec<u8>) -> (r: io::Result<()>)
        ensures
            r is Ok,
    {
        push_u64_le(buf, *self);
        Ok(())
    }
}

impl Chunk for u64 {
    proof fn lemma_round_trip(v: u64) {
        lemma_u64_le_round_trip(v);
    }
}

impl SizedChunk for i64 {
    open spec fn chunk_len() -> nat {
        vstd::layout::size_of::<i64>()
    }

    fn chunk_size() -> (r: usize) {
        core::mem::size_of::<i64>()
    }
}

impl ReadChunk for i64 {
    open spec fn from_bytes(bytes: Seq<u8>) -> i64 {
        u64_from_le(bytes) as i64
    }

    fn from_chunk(buf: &[u8]) -> (r: io::Result<i64>)
        ensures
            r == Ok::<i64, io::Error>(Self::from_bytes(buf@)),
    {
        Ok(read_u64_le(buf) as i64)
    }
}

impl WriteChunk for i64 {
    open spec fn to_bytes(&self) -> Seq<u8> {
        u64_le_bytes(*self as u64)
    }

    fn as_chunk(&self, buf: &mut Vec<u8>) -> (r: io::Result<()>)
        ensures
            r is Ok,
    {
        push_u64_le(buf, *self as u64);
        Ok(())
    }
}

impl Chunk for i64 {
    proof fn lemma_round_trip(v: i64) {
        lemma_u64_le_round_trip(v as u64);
        assert((v as u64) as i64 == v) by (bit_vector);
    }
}

/// A `u64` (or `i64`) chunk is little-endian: its 8 bytes, read as base-256
/// digits with the first one least significant, are the value (the
/// two's-complement value for `i64`), and a chunk is read back the same
/// way.
pub proof fn lemma_u64_chunk_little_endian(v: u64, w: i64, b: Seq<u8>)
    ensures
        v.to_bytes().len() == 8,
        v.to_bytes()[0] as int + 0x100 * (v.to_bytes()[1] as int) + 0x10000 * (v.to_bytes()[2] as int) + 0x1000000 * (v.to_bytes()[3] as int) + 0x100000000 * (v.to_bytes()[4] as int) + 0x10000000000 * (v.to_bytes()[5] as int) + 0x1000000000000 * (v.to_bytes()[6] as int) + 0x100000000000000 * (v.to_bytes()[7] as int) == v,
        w.to_bytes()[0] as int + 0x100 * (w.to_bytes()[1] as int) + 0x10000 * (w.to_bytes()[2] as int) + 0x1000000 * (w.to_bytes()[3] as int) + 0x100000000 * (w.to_bytes()[4] as int) + 0x10000000000 * (w.to_bytes()[5] as int) + 0x1000000000000 * (w.to_bytes()[6] as int) + 0x100000000000000 * (w.to_bytes()[7] as int) == w as u64,
        b.len() >= 8 ==> <u64 as ReadChunk>::from_bytes(b) == b[0] as int + 0x100 * (b[1] as int) + 0x10000 * (b[2] as int) + 0x1000000 * (b[3] as int) + 0x100000000 * (b[4] as int) + 0x10000000000 * (b[5] as int) + 0x1000000000000 * (b[6] as int) + 0x100000000000000 * (b[7] as int),
        b.len() >= 8 ==> <i64 as ReadChunk>::from_bytes(b) == (b[0] as int + 0x100 * (b[1] as int) + 0x10000 * (b[2] as int) + 0x1000000 * (b[3] as int) + 0x100000000 * (b[4] as int) + 0x10000000000 * (b[5] as int) + 0x1000000000000 * (b[6] as int) + 0x100000000000000 * (b[7] as int)) as i64,
{
    lemma_u64_le_round_trip(v);
    lemma_u64_le_round_trip(w as u64);
    lemma_u64_digits(v);
    lemma_u64_digits(w as u64);
    if b.len() >= 8 {
        let b0 = b[0];
        let b1 = b[1];
        let b2 = b[2];
        let b3 = b[3];
        let b4 = b[4];
        let b5 = b[5];
        let b6 = b[6];
        let b7 = b[7];
        lemma_u64_from_digits(b0, b1, b2, b3, b4, b5, b6, b7);
    }
}

proof fn lemma_u64_digits(x: u64)
    ensures
        u64_le_bytes(x)[0] as int + 0x100 * (u64_le_bytes(x)[1] as int) + 0x10000 * (u64_le_bytes(x)[2] as int) + 0x1000000 * (u64_le_bytes(x)[3] as int) + 0x100000000 * (u64_le_bytes(x)[4] as int) + 0x10000000000 * (u64_le_bytes(x)[5] as int) + 0x1000000000000 * (u64_le_bytes(x)[6] as int) + 0x100000000000000 * (u64_le_bytes(x)[7] as int) == x,
{
    let b = u64_le_bytes(x);
    assert(b[0] == (x & 0xff) as u8);
    assert(b[1] == ((x >> 8) & 0xff) as u8);
    assert(b[2] == ((x >> 16) & 0xff) as u8);
    assert(b[3] == ((x >> 24) & 0xff) as u8);
    assert(b[4] == ((x >> 32) & 0xff) as u8);
    assert(b[5] == ((x >> 40) & 0xff) as u8);
    assert(b[6] == ((x >> 48) & 0xff) as u8);
    assert(b[7] == ((x >> 56) & 0xff) as u8);
    assert(((x & 0xff) as u8) as int + 0x100 * ((((x >> 8) & 0xff) as u8) as int) + 0x10000 * ((((x >> 16) & 0xff) as u8) as int) + 0x1000000 * ((((x >> 24) & 0xff) as u8) as int) + 0x100000000 * ((((x >> 32) & 0xff) as u8) as int) + 0x10000000000 * ((((x >> 40) & 0xff) as u8) as int) + 0x1000000000000 * ((((x >> 48) & 0xff) as u8) as int) + 0x100000000000000 * ((((x >> 56) & 0xff) as u8) as int) == x) by (bit_vector);
}

proof fn lemma_u64_from_digits(b0: u8, b1: u8, b2: u8, b3: u8, b4: u8, b5: u8, b6: u8, b7: u8)
    ensures
        (b0 as u64) | ((b1 as u64) << 8) | ((b2 as u64) << 16) | ((b3 as u64) << 24) | ((b4 as u64) << 32) | ((b5 as u64) << 40) | ((b6 as u64) << 48) | ((b7 as u64) << 56) == b0 as int + 0x100 * (b1 as int) + 0x10000 * (b2 as int) + 0x1000000 * (b3 as int) + 0x100000000 * (b4 as int) + 0x10000000000 * (b5 as int) + 0x1000000000000 * (b6 as int) + 0x100000000000000 * (b7 as int),
{
    assert((b0 as u64) | ((b1 as u64) << 8) | ((b2 as u64) << 16) | ((b3 as u64) << 24) | ((b4 as u64) << 32) | ((b5 as u64) << 40) | ((b6 as u64) << 48) | ((b7 as u64) << 56) == b0 as int + 0x100 * (b1 as int) + 0x10000 * (b2 as int) + 0x1000000 * (b3 as int) + 0x100000000 * (b4 as int) + 0x10000000000 * (b5 as int) + 0x1000000000000 * (b6 as int) + 0x100000000000000 * (b7 as int)) by (bit_vector);
}

/// The little-endian bytes of a `u128`: the least significant byte first.
pub open spec fn u128_le_bytes(x: u128) -> Seq<u8> {
    seq![
        (x & 0xff) as u8,
        ((x >> 8) & 0xff) as u8,
        ((x >> 16) & 0xff) as u8,
        ((x >> 24) & 0xff) as u8,
        ((x >> 32) & 0xff) as u8,
        ((x >> 40) & 0xff) as u8,
        ((x >> 48) & 0xff) as u8,
        ((x >> 56) & 0xff) as u8,
        ((x >> 64) & 0xff) as u8,
        ((x >> 72) & 0xff) as u8,
        ((x >> 80) & 0xff) as u8,
        ((x >> 88) & 0xff) as u8,
        ((x >> 96) & 0xff) as u8,
        ((x >> 104) & 0xff) as u8,
        ((x >> 112) & 0xff) as u8,
        ((x >> 120) & 0xff) as u8,
    ]
}

/// The `u128` whose little-endian bytes are the first 16 of `b`.
pub open spec fn u128_from_le(b: Seq<u8>) -> u128 {
    (b[0] as u128) | ((b[1] as u128) << 8) | ((b[2] as u128) << 16) | ((b[3] as u128) << 24) | ((b[4] as u128) << 32) | ((b[5] as u128) << 40) | ((b[6] as u128) << 48) | ((b[7] as u128) << 56) | ((b[8] as u128) << 64) | ((b[9] as u128) << 72) | ((b[10] as u128) << 80) | ((b[11] as u128) << 88) | ((b[12] as u128) << 96) | ((b[13] as u128) << 104) | ((b[14] as u128) << 112) | ((b[15] as u128) << 120)
}

fn push_u128_le(buf: &mut Vec<u8>, x: u128)
    ensures
        final(buf)@ == old(buf)@ + u128_le_bytes(x),
{
    buf.push((x & 0xff) as u8);
    buf.push(((x >> 8) & 0xff) as u8);
    buf.push(((x >> 16) & 0xff) as u8);
    buf.push(((x >> 24) & 0xff) as u8);
    buf.push(((x >> 32) & 0xff) as u8);
    buf.push(((x >> 40) & 0xff) as u8);
    buf.push(((x >> 48) & 0xff) as u8);
    buf.push(((x >> 56) & 0xff) as u8);
    buf.push(((x >> 64) & 0xff) as u8);
    buf.push(((x >> 72) & 0xff) as u8);
    buf.push(((x >> 80) & 0xff) as u8);
    buf.push(((x >> 88) & 0xff) as u8);
    buf.push(((x >> 96) & 0xff) as u8);
    buf.push(((x >> 104) & 0xff) as u8);
    buf.push(((x >> 112) & 0xff) as u8);
    buf.push(((x >> 120) & 0xff) as u8);
    proof {
        assert(buf@ =~= old(buf)@ + u128_le_bytes(x));
    }
}

fn read_u128_le(buf: &[u8]) -> (r: u128)
    requires
        buf@.len() >= 16,
    ensures
        r == u128_from_le(buf@),
{
    (buf[0] as u128) | ((buf[1] as u128) << 8) | ((buf[2] as u128) << 16) | ((buf[3] as u128) << 24) | ((buf[4] as u128) << 32) | ((buf[5] as u128) << 40) | ((buf[6] as u128) << 48) | ((buf[7] as u128) << 56) | ((buf[8] as u128) << 64) | ((buf[9] as u128) << 72) | ((buf[10] as u128) << 80) | ((buf[11] as u128) << 88) | ((buf[12] as u128) << 96) | ((buf[13] as u128) << 104) | ((buf[14] as u128) << 112) | ((buf[15] as u128) << 120)
}

proof fn lemma_u128_le_round_trip(x: u128)
    ensures
        u128_le_bytes(x).len() == 16,
        u128_from_le(u128_le_bytes(x)) == x,
{
    let b = u128_le_bytes(x);
    assert(b[0] == (x & 0xff) as u8);
    assert(b[1] == ((x >> 8) & 0xff) as u8);
    assert(b[2] == ((x >> 16) & 0xff) as u8);
    assert(b[3] == ((x >> 24) & 0xff) as u8);
    assert(b[4] == ((x >> 32) & 0xff) as u8);
    assert(b[5] == ((x >> 40) & 0xff) as u8);
    assert(b[6] == ((x >> 48) & 0xff) as u8);
    assert(b[7] == ((x >> 56) & 0xff) as u8);
    assert(b[8] == ((x >> 64) & 0xff) as u8);
    assert(b[9] == ((x >> 72) & 0xff) as u8);
    assert(b[10] == ((x >> 80) & 0xff) as u8);
    assert(b[11] == ((x >> 88) & 0xff) as u8);
    assert(b[12] == ((x >> 96) & 0xff) as u8);
    assert(b[13] == ((x >> 104) & 0xff) as u8);
    assert(b[14] == ((x >> 112) & 0xff) as u8);
    assert(b[15] == ((x >> 120) & 0xff) as u8);
    assert((((x & 0xff) as u8) as u128) | (((((x >> 8) & 0xff) as u8) as u128) << 8) | (((((x >> 16) & 0xff) as u8) as u128) << 16) | (((((x >> 24) & 0xff) as u8) as u128) << 24) | (((((x >> 32) & 0xff) as u8) as u128) << 32) | (((((x >> 40) & 0xff) as u8) as u128) << 40) | (((((x >> 48) & 0xff) as u8) as u128) << 48) | (((((x >> 56) & 0xff) as u8) as u128) << 56) | (((((x >> 64) & 0xff) as u8) as u128) << 64) | (((((x >> 72) & 0xff) as u8) as u128) << 72) | (((((x >> 80) & 0xff) as u8) as u128) << 80) | (((((x >> 88) & 0xff) as u8) as u128) << 88) | (((((x >> 96) & 0xff) as u8) as u128) << 96) | (((((x >> 104) & 0xff) as u8) as u128) << 104) | (((((x >> 112) & 0xff) as u8) as u128) << 112) | (((((x >> 120) & 0xff) as u8) as u128) << 120) == x) by (bit_vector);
}

impl SizedChunk for u128 {
    open spec fn chunk_len() -> nat {
        vstd::layout::size_of::<u128>()
    }

    fn chunk_size() -> (r: usize) {
        core::mem::size_of::<u128>()
    }
}

impl ReadChunk for u128 {
    open spec fn from_bytes(bytes: Seq<u8>) -> u128 {
        u128_from_le(bytes)
    }

    fn from_chunk(buf: &[u8]) -> (r: io::Result<u128>)
        ensures
            r == Ok::<u128, io::Error>(Self::from_bytes(buf@)),
    {
        Ok(read_u128_le(buf))
    }
}

impl WriteChunk for u128 {
    open spec fn to_bytes(&self) -> Seq<u8> {
        u128_le_bytes(*self)
    }

    fn as_chunk(&self, buf: &mut Vec<u8>) -> (r: io::Result<()>)
        ensures
            r is Ok,
    {
        push_u128_le(buf, *self);
        Ok(())
    }
}

impl Chunk for u128 {
    proof fn lemma_round_trip(v: u128) {
        lemma_u128_le_round_trip(v);
    }
}

impl SizedChunk for i128 {
    open spec fn chunk_len() -> nat {
        vstd::layout::size_of::<i128>()
    }

    fn chunk_size() -> (r: usize) {
        core::mem::size_of::<i128>()
    }
}

impl ReadChunk for i128 {
    open spec fn from_bytes(bytes: Seq<u8>) -> i128 {
        u128_from_le(bytes) as i128
    }

    fn from_chunk(buf: &[u8]) -> (r: io::Result<i128>)
        ensures
            r == Ok::<i128, io::Error>(Self::from_bytes(buf@)),
    {
        Ok(read_u128_le(buf) as i128)
    }
}

impl WriteChunk for i128 {
    open spec fn to_bytes(&self) -> Seq<u8> {
        u128_le_bytes(*self as u128)
    }

    fn as_chunk(&self, buf: &mut Vec<u8>) -> (r: io::Result<()>)
        ensures
            r is Ok,
    {
        push_u128_le(buf, *self as u128);
        Ok(())
    }
}

impl Chunk for i128 {
    proof fn lemma_round_trip(v: i128) {
        lemma_u128_le_round_trip(v as u128);
        assert((v as u128) as i128 == v) by (bit_vector);
    }
}

/// A `u128` (or `i128`) chunk is little-endian: its 16 bytes, read as base-256
/// digits with the first one least significant, are the value (the
/// two's-complement value for `i128`), and a chunk is read back the same
/// way.
pub proof fn lemma_u128_chunk_little_endian(v: u128, w: i128, b: Seq<u8>)
    ensures
        v.to_bytes().len() == 16,
        v.to_bytes()[0] as int + 0x100 * (v.to_bytes()[1] as int) + 0x10000 * (v.to_bytes()[2] as int) + 0x1000000 * (v.to_bytes()[3] as int) + 0x100000000 * (v.to_bytes()[4] as int) + 0x10000000000 * (v.to_bytes()[5] as int) + 0x1000000000000 * (v.to_bytes()[6] as int) + 0x100000000000000 * (v.to_bytes()[7] as int) + 0x10000000000000000 * (v.to_bytes()[8] as int) + 0x1000000000000000000 * (v.to_bytes()[9] as int) + 0x100000000000000000000 * (v.to_bytes()[10] as int) + 0x10000000000000000000000 * (v.to_bytes()[11] as int) + 0x1000000000000000000000000 * (v.to_bytes()[12] as int) + 0x100000000000000000000000000 * (v.to_bytes()[13] as int) + 0x10000000000000000000000000000 * (v.to_bytes()[14] as int) + 0x1000000000000000000000000000000 * (v.to_bytes()[15] as int) == v,
        w.to_bytes()[0] as int + 0x100 * (w.to_bytes()[1] as int) + 0x10000 * (w.to_bytes()[2] as int) + 0x1000000 * (w.to_bytes()[3] as int) + 0x100000000 * (w.to_bytes()[4] as int) + 0x10000000000 * (w.to_bytes()[5] as int) + 0x1000000000000 * (w.to_bytes()[6] as int) + 0x100000000000000 * (w.to_bytes()[7] as int) + 0x10000000000000000 * (w.to_bytes()[8] as int) + 0x1000000000000000000 * (w.to_bytes()[9] as int) + 0x100000000000000000000 * (w.to_bytes()[10] as int) + 0x10000000000000000000000 * (w.to_bytes()[11] as int) + 0x1000000000000000000000000 * (w.to_bytes()[12] as int) + 0x100000000000000000000000000 * (w.to_bytes()[13] as int) + 0x10000000000000000000000000000 * (w.to_bytes()[14] as int) + 0x1000000000000000000000000000000 * (w.to_bytes()[15] as int) == w as u128,
        b.len() >= 16 ==> <u128 as ReadChunk>::from_bytes(b) == b[0] as int + 0x100 * (b[1] as int) + 0x10000 * (b[2] as int) + 0x1000000 * (b[3] as int) + 0x100000000 * (b[4] as int) + 0x10000000000 * (b[5] as int) + 0x1000000000000 * (b[6] as int) + 0x100000000000000 * (b[7] as int) + 0x10000000000000000 * (b[8] as int) + 0x1000000000000000000 * (b[9] as int) + 0x100000000000000000000 * (b[10] as int) + 0x10000000000000000000000 * (b[11] as int) + 0x1000000000000000000000000 * (b[12] as int) + 0x100000000000000000000000000 * (b[13] as int) + 0x10000000000000000000000000000 * (b[14] as int) + 0x1000000000000000000000000000000 * (b[15] as int),
        b.len() >= 16 ==> <i128 as ReadChunk>::from_bytes(b) == (b[0] as int + 0x100 * (b[1] as int) + 0x10000 * (b[2] as int) + 0x1000000 * (b[3] as int) + 0x100000000 * (b[4] as int) + 0x10000000000 * (b[5] as int) + 0x1000000000000 * (b[6] as int) + 0x100000000000000 * (b[7] as int) + 0x10000000000000000 * (b[8] as int) + 0x1000000000000000000 * (b[9] as int) + 0x100000000000000000000 * (b[10] as int) + 0x10000000000000000000000 * (b[11] as int) + 0x1000000000000000000000000 * (b[12] as int) + 0x100000000000000000000000000 * (b[13] as int) + 0x10000000000000000000000000000 * (b[14] as int) + 0x1000000000000000000000000000000 * (b[15] as int)) as i128,
{
    lemma_u128_le_round_trip(v);
    lemma_u128_le_round_trip(w as u128);
    lemma_u128_digits(v);
    lemma_u128_digits(w as u128);
    if b.len() >= 16 {
        let b0 = b[0];
        let b1 = b[1];
        let b2 = b[2];
        let b3 = b[3];
        let b4 = b[4];
        let b5 = b[5];
        let b6 = b[6];
        let b7 = b[7];
        let b8 = b[8];
        let b9 = b[9];
        let b10 = b[10];
        let b11 = b[11];
        let b12 = b[12];
        let b13 = b[13];
        let b14 = b[14];
        let b15 = b[15];
        lemma_u128_from_digits(b0, b1, b2, b3, b4, b5, b6, b7, b8, b9, b10, b11, b12, b13, b14, b15);
    }
}

proof fn lemma_u128_digits(x: u128)
    ensures
        u128_le_bytes(x)[0] as int + 0x100 * (u128_le_bytes(x)[1] as int) + 0x10000 * (u128_le_bytes(x)[2] as int) + 0x1000000 * (u128_le_bytes(x)[3] as int) + 0x100000000 * (u128_le_bytes(x)[4] as int) + 0x10000000000 * (u128_le_bytes(x)[5] as int) + 0x1000000000000 * (u128_le_bytes(x)[6] as int) + 0x100000000000000 * (u128_le_bytes(x)[7] as int) + 0x10000000000000000 * (u128_le_bytes(x)[8] as int) + 0x1000000000000000000 * (u128_le_bytes(x)[9] as int) + 0x100000000000000000000 * (u128_le_bytes(x)[10] as int) + 0x10000000000000000000000 * (u128_le_bytes(x)[11] as int) + 0x1000000000000000000000000 * (u128_le_bytes(x)[12] as int) + 0x100000000000000000000000000 * (u128_le_bytes(x)[13] as int) + 0x10000000000000000000000000000 * (u128_le_bytes(x)[14] as int) + 0x1000000000000000000000000000000 * (u128_le_bytes(x)[15] as int) == x,
{
    let b = u128_le_bytes(x);
    assert(b[0] == (x & 0xff) as u8);
    assert(b[1] == ((x >> 8) & 0xff) as u8);
    assert(b[2] == ((x >> 16) & 0xff) as u8);
    assert(b[3] == ((x >> 24) & 0xff) as u8);
    assert(b[4] == ((x >> 32) & 0xff) as u8);
    assert(b[5] == ((x >> 40) & 0xff) as u8);
    assert(b[6] == ((x >> 48) & 0xff) as u8);
    assert(b[7] == ((x >> 56) & 0xff) as u8);
    assert(b[8] == ((x >> 64) & 0xff) as u8);
    assert(b[9] == ((x >> 72) & 0xff) as u8);
    assert(b[10] == ((x >> 80) & 0xff) as u8);
    assert(b[11] == ((x >> 88) & 0xff) as u8);
    assert(b[12] == ((x >> 96) & 0xff) as u8);
    assert(b[13] == ((x >> 104) & 0xff) as u8);
    assert(b[14] == ((x >> 112) & 0xff) as u8);
    assert(b[15] == ((x >> 120) & 0xff) as u8);
    assert(((x & 0xff) as u8) as int + 0x100 * ((((x >> 8) & 0xff) as u8) as int) + 0x10000 * ((((x >> 16) & 0xff) as u8) as int) + 0x1000000 * ((((x >> 24) & 0xff) as u8) as int) + 0x100000000 * ((((x >> 32) & 0xff) as u8) as int) + 0x10000000000 * ((((x >> 40) & 0xff) as u8) as int) + 0x1000000000000 * ((((x >> 48) & 0xff) as u8) as int) + 0x100000000000000 * ((((x >> 56) & 0xff) as u8) as int) + 0x10000000000000000 * ((((x >> 64) & 0xff) as u8) as int) + 0x1000000000000000000 * ((((x >> 72) & 0xff) as u8) as int) + 0x100000000000000000000 * ((((x >> 80) & 0xff) as u8) as int) + 0x10000000000000000000000 * ((((x >> 88) & 0xff) as u8) as int) + 0x1000000000000000000000000 * ((((x >> 96) & 0xff) as u8) as int) + 0x100000000000000000000000000 * ((((x >> 104) & 0xff) as u8) as int) + 0x10000000000000000000000000000 * ((((x >> 112) & 0xff) as u8) as int) + 0x1000000000000000000000000000000 * ((((x >> 120) & 0xff) as u8) as int) == x) by (bit_vector);
}

proof fn lemma_u128_from_digits(b0: u8, b1: u8, b2: u8, b3: u8, b4: u8, b5: u8, b6: u8, b7: u8, b8: u8, b9: u8, b10: u8, b11: u8, b12: u8, b13: u8, b14: u8, b15: u8)
    ensures
        (b0 as u128) | ((b1 as u128) << 8) | ((b2 as u128) << 16) | ((b3 as u128) << 24) | ((b4 as u128) << 32) | ((b5 as u128) << 40) | ((b6 as u128) << 48) | ((b7 as u128) << 56) | ((b8 as u128) << 64) | ((b9 as u128) << 72) | ((b10 as u128) << 80) | ((b11 as u128) << 88) | ((b12 as u128) << 96) | ((b13 as u128) << 104) | ((b14 as u128) << 112) | ((b15 as u128) << 120) == b0 as int + 0x100 * (b1 as int) + 0x10000 * (b2 as int) + 0x1000000 * (b3 as int) + 0x100000000 * (b4 as int) + 0x10000000000 * (b5 as int) + 0x1000000000000 * (b6 as int) + 0x100000000000000 * (b7 as int) + 0x10000000000000000 * (b8 as int) + 0x1000000000000000000 * (b9 as int) + 0x100000000000000000000 * (b10 as int) + 0x10000000000000000000000 * (b11 as int) + 0x1000000000000000000000000 * (b12 as int) + 0x100000000000000000000000000 * (b13 as int) + 0x10000000000000000000000000000 * (b14 as int) + 0x1000000000000000000000000000000 * (b15 as int),
{
    assert((b0 as u128) | ((b1 as u128) << 8) | ((b2 as u128) << 16) | ((b3 as u128) << 24) | ((b4 as u128) << 32) | ((b5 as u128) << 40) | ((b6 as u128) << 48) | ((b7 as u128) << 56) | ((b8 as u128) << 64) | ((b9 as u128) << 72) | ((b10 as u128) << 80) | ((b11 as u128) << 88) | ((b12 as u128) << 96) | ((b13 as u128) << 104) | ((b14 as u128) << 112) | ((b15 as u128) << 120) == b0 as int + 0x100 * (b1 as int) + 0x10000 * (b2 as int) + 0x1000000 * (b3 as int) + 0x100000000 * (b4 as int) + 0x10000000000 * (b5 as int) + 0x1000000000000 * (b6 as int) + 0x100000000000000 * (b7 as int) + 0x10000000000000000 * (b8 as int) + 0x1000000000000000000 * (b9 as int) + 0x100000000000000000000 * (b10 as int) + 0x10000000000000000000000 * (b11 as int) + 0x1000000000000000000000000 * (b12 as int) + 0x100000000000000000000000000 * (b13 as int) + 0x10000000000000000000000000000 * (b14 as int) + 0x1000000000000000000000000000000 * (b15 as int)) by (bit_vector);
}


impl SizedChunk for bool {
    open spec fn chunk_len() -> nat {
        vstd::layout::size_of::<bool>()
    }

    fn chunk_size() -> (r: usize) {
        core::mem::size_of::<bool>()
    }
}

impl ReadChunk for bool {
    open spec fn from_bytes(bytes: Seq<u8>) -> bool {
        bytes[0] != 0
    }

    fn from_chunk(buf: &[u8]) -> (r: io::Result<bool>)
        ensures
            r == Ok::<bool, io::Error>(Self::from_bytes(buf@)),
    {
        Ok(buf[0] != 0)
    }
}

impl WriteChunk for bool {
    open spec fn to_bytes(&self) -> Seq<u8> {
        seq![
            if *self {
                1u8
            } else {
                0u8
            },
        ]
    }

    fn as_chunk(&self, buf: &mut Vec<u8>) -> (r: io::Result<()>)
        ensures
            r is Ok,
    {
        let byte: u8 = if *self {
            1
        } else {
            0
        };
        buf.push(byte);
        Ok(())
    }
}

impl Chunk for bool {
    proof fn lemma_round_trip(v: bool) {
    }
}

impl SizedChunk for char {
    open spec fn chunk_len() -> nat {
        vstd::layout::size_of::<char>()
    }

    fn chunk_size() -> (r: usize) {
        core::mem::size_of::<char>()
    }
}

impl ReadChunk for char {
    /// A character chunk holds the character's code in its first byte.
    open spec fn from_bytes(bytes: Seq<u8>) -> char {
        bytes[0] as char
    }

    fn from_chunk(buf: &[u8]) -> (r: io::Result<char>)
        ensures
            r == Ok::<char, io::Error>(Self::from_bytes(buf@)),
    {
        Ok(buf[0] as char)
    }
}

impl WriteChunk for char {
    /// A character is written as the low byte of its code, one byte where
    /// its chunk takes four.
    open spec fn to_bytes(&self) -> Seq<u8> {
        seq![*self as u8]
    }

    fn as_chunk(&self, buf: &mut Vec<u8>) -> (r: io::Result<()>)
        ensures
            r is Ok,
    {
        buf.push(*self as u8);
        Ok(())
    }
}

impl<T: SizedChunk> SizedChunk for Option<T> {
    open spec fn chunk_len() -> nat {
        T::chunk_len() + 1
    }

    fn chunk_size() -> (r: usize) {
        T::chunk_size() + 1
    }
}

impl<T: ReadChunk> ReadChunk for Option<T> {
    /// A flag byte, then the value when the flag is not zero.
    open spec fn from_bytes(bytes: Seq<u8>) -> Option<T> {
        if bytes[0] != 0 {
            Some(T::from_bytes(bytes.drop_first()))
        } else {
            None
        }
    }

    fn from_chunk(buf: &[u8]) -> (r: io::Result<Option<T>>)
        ensures
            buf@[0] == 0 ==> r matches Ok(None),
    {
        if buf[0] != 0 {
            let rest = slice_subrange(buf, 1, buf.len());
            proof {
                assert(rest@ =~= buf@.drop_first());
            }
            let value = T::from_chunk(rest)?;
            Ok(Some(value))
        } else {
            Ok(None)
        }
    }
}

/// The message of the error for a chunk of the wrong size.
pub open spec fn invalid_size_text(chunk_number: nat) -> Seq<char> {
    "Invalid chunk size at chunk "@ + decimal(chunk_number)
}

/// Checks that `buf` is exactly one chunk of `T` long, and returns it if
/// so.
///
/// # Errors
///
/// Returns an `InvalidData` error naming the `chunk_number`-th chunk if
/// `buf` is not one chunk long.
pub fn check_chunk<T: SizedChunk>(buf: Vec<u8>, chunk_number: u64) -> (r: io::Result<Vec<u8>>)
    requires
        T::chunk_len() <= usize::MAX,
    ensures
        buf@.len() == T::chunk_len() ==> (r matches Ok(b) && b@ == buf@),
        buf@.len() != T::chunk_len() ==> (r matches Err(e) && is_invalid_data(
            e,
            invalid_size_text(chunk_number as nat),
        )),
{
    if buf.len() != T::chunk_size() {
        let mut message: Vec<char> = Vec::new();
        push_str(&mut message, "Invalid chunk size at chunk ");
        push_decimal(&mut message, chunk_number);
        return Err(invalid_data(string_from_chars(&message)));
    }
    Ok(buf)
}

/// Encodes `object` as the `chunk_number`-th chunk of a binary file: its
/// bytes, which must be one chunk long.
///
/// # Errors
///
/// Passes on an error of the object's encoding, and returns an
/// `InvalidData` error if the encoding is not one chunk long.
pub fn encode_chunk<T: WriteChunk>(object: &T, chunk_number: u64) -> (r: io::Result<Vec<u8>>)
    requires
        T::chunk_len() <= usize::MAX,
    ensures
        r matches Ok(bytes) ==> bytes@ == object.to_bytes() && bytes@.len() == T::chunk_len(),
        object.to_bytes().len() != T::chunk_len() ==> r is Err,
{
    let mut buf: Vec<u8> = Vec::new();
    object.as_chunk(&mut buf)?;
    check_chunk::<T>(buf, chunk_number)
}

/// Writing a value as a chunk and reading the chunk back gives the value.
pub proof fn lemma_chunk_round_trip<T: Chunk>(v: T)
    ensures
        T::from_bytes(v.to_bytes()) == v,
        v.to_bytes().len() == T::chunk_len(),
{
    T::lemma_round_trip(v);
}

} // verus!
