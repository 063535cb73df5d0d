use walloc::{MemoryHandle, SIMDOps};

fn pattern(n: usize) -> Vec<u8> {
    (0..n).map(|i| (i % 251) as u8).collect()
}

fn expected(dst: &[u8], at: usize, src: &[u8]) -> Vec<u8> {
    let mut r = dst.to_vec();
    r[at..at + src.len()].copy_from_slice(src);
    r
}

#[test]
fn fast_copy_each_size_path() {
    for len in [0usize, 1, 2, 3, 4, 5, 7, 8, 9, 15, 16, 17, 31, 32, 33, 64, 127, 128, 129, 160, 300, 4097] {
        let src = pattern(len + 5);
        let mut dst = vec![0xEEu8; len + 20];
        SIMDOps::fast_copy(&src, 5, &mut dst, 7, len);
        assert_eq!(dst, expected(&vec![0xEEu8; len + 20], 7, &src[5..5 + len]), "len {}", len);
    }
}

#[test]
fn copy_vectorized_moves_everything() {
    let src = pattern(1000);
    let mut dst = vec![0u8; 1000];
    SIMDOps::copy_vectorized(&src, 0, &mut dst, 0, 1000);
    assert_eq!(dst, src);
}

#[test]
fn bulk_copy_runs_in_order() {
    let mut mem = pattern(256);
    let ops = [
        (MemoryHandle(0), MemoryHandle(100), 10),
        (MemoryHandle(100), MemoryHandle(200), 10),
    ];
    SIMDOps::bulk_copy_optimized(&mut mem, &ops);
    let p = pattern(256);
    assert_eq!(&mem[100..110], &p[0..10]);
    assert_eq!(&mem[200..210], &p[0..10]);
    assert_eq!(&mem[0..100], &p[0..100]);
}

#[test]
fn bulk_copy_skips_empty_null_and_out_of_range() {
    let mut mem = pattern(64);
    let ops = [
        (MemoryHandle(0), MemoryHandle(10), 0),
        (MemoryHandle::null(), MemoryHandle(10), 4),
        (MemoryHandle(0), MemoryHandle::null(), 4),
        (MemoryHandle(60), MemoryHandle(0), 8),
        (MemoryHandle(0), MemoryHandle(60), 8),
    ];
    SIMDOps::bulk_copy_optimized(&mut mem, &ops);
    assert_eq!(mem, pattern(64));
}

#[test]
fn bulk_copy_overlapping_reads_source_first() {
    let mut mem = pattern(64);
    SIMDOps::bulk_copy_optimized(&mut mem, &[(MemoryHandle(0), MemoryHandle(4), 40)]);
    let p = pattern(64);
    assert_eq!(&mem[4..44], &p[0..40]);
    assert_eq!(&mem[0..4], &p[0..4]);
    assert_eq!(&mem[44..], &p[44..]);
}
