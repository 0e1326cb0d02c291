use sfw_tools::bytes_iter::BytesIter;

const DEFAULT_BUF_SIZE: usize = 8 * 1024;

fn sliced(b: &[u8], size: usize) -> Vec<Vec<u8>> {
    let mut v = vec![];
    let mut iter = BytesIter::new(b.to_vec(), size);
    while let Some(chunk) = iter.next_chunk() {
        v.push(chunk);
    }
    v
}

fn check(bytes: &[u8], size: usize) {
    let a = sliced(bytes, size);
    let b = bytes.chunks(size).map(|c| c.to_vec()).collect::<Vec<_>>();
    if a != b {
        panic!(
            "chunks are not equal!
BytesIter produced {} chunks with lengths: {:?}
slice.chunks produced {} chunks with lengths: {:?}",
            a.len(),
            a.iter().map(|c| c.len()).collect::<Vec<_>>(),
            b.len(),
            b.iter().map(|c| c.len()).collect::<Vec<_>>()
        );
    }
}

#[test]
fn test_simple() {
    let bytes = b"0123456789abcdef";
    check(bytes, 4);
}

#[test]
fn test_non_even() {
    let bytes = b"0123456789abcd";
    check(bytes, 4);
}

#[test]
fn test_chunks_larger_than_bufread_default_buffer() {
    let bytes = (0..DEFAULT_BUF_SIZE * 4)
        .map(|i| (i % 256) as u8)
        .collect::<Vec<u8>>();
    let size = DEFAULT_BUF_SIZE * 2;
    check(&bytes, size);
}
