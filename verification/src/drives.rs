//! What the volumes of a machine are called: the letters of its drives, the
//! name of the file system that a volume must have, and the names under
//! which a drive is opened and its snapshot kept.

use crate::text::push_char;
use vstd::prelude::*;
use vstd::string::StringExecFns;

verus! {

/// How many drive letters there are.
pub const DRIVE_LETTERS: u8 = 26;

/// The letter of the drive number `i`, counted from `A`.
pub open spec fn letter(i: int) -> char {
    (0x41 + i) as u8 as char
}

/// Whether the mask of drives has the drive number `i`.
pub open spec fn has_drive(bit_mask: u32, i: int) -> bool {
    (bit_mask >> (i as u32)) & 1 == 1
}

/// The letters of the drives of a mask from number `from` on, in the order
/// of the alphabet.
pub open spec fn letters_from(bit_mask: u32, from: int) -> Seq<char>
    decreases DRIVE_LETTERS - from,
{
    if from >= DRIVE_LETTERS {
        Seq::empty()
    } else if has_drive(bit_mask, from) {
        seq![letter(from)] + letters_from(bit_mask, from + 1)
    } else {
        letters_from(bit_mask, from + 1)
    }
}

/// The letters of the drives that a mask names: bit 0 stands for `A`, bit 1
/// for `B`, and so on to `Z`.
pub fn drive_letters(bit_mask: u32) -> (vols: Vec<char>)
    ensures
        vols@ == letters_from(bit_mask, 0),
{
    let mut vols: Vec<char> = Vec::new();
    let mut i: u8 = 0;
    while i < DRIVE_LETTERS
        invariant
            i <= DRIVE_LETTERS,
            vols@ + letters_from(bit_mask, i as int) == letters_from(bit_mask, 0),
        decreases DRIVE_LETTERS - i,
    {
        let ghost before = vols@;
        if (bit_mask >> (i as u32)) & 1 == 1 {
            vols.push((0x41 + i) as char);
            assert(vols@ + letters_from(bit_mask, i + 1) =~= before + letters_from(
                bit_mask,
                i as int,
            ));
        }
        i = i + 1;
    }
    vols
}

/// The bytes of `NTFS`.
pub open spec fn ntfs() -> Seq<u8> {
    seq![0x4E, 0x54, 0x46, 0x53]
}

/// The bytes of a buffer that are not zero, in their order.
pub open spec fn without_zeros(buffer: Seq<u8>) -> Seq<u8> {
    buffer.filter(|b: u8| b != 0)
}

/// Whether the buffer in which the system has written the name of a
/// volume's file system says `NTFS`: its bytes, zeros left out, are those
/// four letters.
pub fn is_ntfs_name(buffer: &[u8]) -> (ntfs_named: bool)
    ensures
        ntfs_named == (without_zeros(buffer@) == ntfs()),
{
    let n = buffer.len();
    let mut seen: usize = 0;
    let mut i: usize = 0;
    proof {
        reveal(Seq::filter);
    }
    while i < n
        invariant
            i <= n,
            n == buffer.len(),
            seen <= 4,
            without_zeros(buffer@.take(i as int)) == ntfs().take(seen as int),
        decreases n - i,
    {
        let b = buffer[i];
        proof {
            assert(buffer@.take(i + 1) =~= buffer@.take(i as int).push(b));
            buffer@.take(i as int).lemma_filter_push(b, |b: u8| b != 0);
        }
        if b != 0 {
            let expected: u8 = if seen == 0 {
                0x4E
            } else if seen == 1 {
                0x54
            } else if seen == 2 {
                0x46
            } else if seen == 3 {
                0x53
            } else {
                0
            };
            if b != expected {
                proof {
                    let head = without_zeros(buffer@.take(i + 1));
                    assert(head[seen as int] == b);
                    lemma_filter_grows(buffer@, i + 1);
                }
                return false;
            }
            seen = seen + 1;
        }
        i = i + 1;
    }
    assert(buffer@.take(n as int) =~= buffer@);
    assert(ntfs().take(4) =~= ntfs());
    seen == 4
}

/// The bytes that are not zero of the beginning of a buffer are the
/// beginning of those of the whole buffer.
proof fn lemma_filter_grows(buffer: Seq<u8>, i: int)
    requires
        0 <= i <= buffer.len(),
    ensures
        without_zeros(buffer.take(i)).is_prefix_of(without_zeros(buffer)),
{
    Seq::filter_distributes_over_add(buffer.take(i), buffer.skip(i), |b: u8| b != 0);
    assert(buffer.take(i) + buffer.skip(i) =~= buffer);
}

/// The name under which the volume of a drive is opened.
pub open spec fn device_name(drive: char) -> Seq<char> {
    seq!['\\', '\\', '.', '\\', drive, ':']
}

/// The name under which the volume of a drive is opened: two backslashes, a
/// dot, a backslash, the letter and a colon.
pub fn device_path(drive: char) -> (path: String)
    ensures
        path@ == device_name(drive),
{
    let mut path = String::new();
    push_char(&mut path, '\\');
    push_char(&mut path, '\\');
    push_char(&mut path, '.');
    push_char(&mut path, '\\');
    push_char(&mut path, drive);
    push_char(&mut path, ':');
    path
}

/// The name of the file that holds the snapshot of a drive.
pub open spec fn snapshot_name(drive: char) -> Seq<char> {
    seq![drive, '.', 'f', 'd']
}

/// The name of the file that holds the snapshot of a drive: the letter,
/// then `.fd`.
pub fn snapshot_file_name(drive: char) -> (name: String)
    ensures
        name@ == snapshot_name(drive),
{
    let mut name = String::new();
    push_char(&mut name, drive);
    push_char(&mut name, '.');
    push_char(&mut name, 'f');
    push_char(&mut name, 'd');
    name
}

} // verus!
