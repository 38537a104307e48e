use pmsa::{
    even_division_lens, partition_by_indices, partition_by_indices_mut, partition_by_lens,
    partition_by_lens_mut, MutSliceWriter, Sink,
};

#[test]
fn even_division_spreads_the_remainder_over_the_first_parts() {
    assert_eq!(even_division_lens(10, 3), vec![4, 3, 3]);
    assert_eq!(even_division_lens(11, 3), vec![4, 4, 3]);
    assert_eq!(even_division_lens(12, 3), vec![4, 4, 4]);
    assert_eq!(even_division_lens(7, 1), vec![7]);
}

#[test]
fn even_division_of_nothing_is_all_zero() {
    assert_eq!(even_division_lens(0, 4), vec![0, 0, 0, 0]);
}

#[test]
fn even_division_into_more_parts_than_items() {
    assert_eq!(even_division_lens(2, 5), vec![1, 1, 0, 0, 0]);
}

#[test]
fn even_division_sums_and_balances() {
    for len in 0..60usize {
        for parts in 1..12usize {
            let lens = even_division_lens(len, parts);
            assert_eq!(lens.len(), parts);
            assert_eq!(lens.iter().sum::<usize>(), len);
            let max = *lens.iter().max().unwrap();
            let min = *lens.iter().min().unwrap();
            assert!(max - min <= 1);
        }
    }
}

#[test]
fn partition_by_lens_cuts_in_order() {
    let data = [10, 11, 12, 13, 14, 15, 16];
    let (chunks, rest) = partition_by_lens(&data, vec![2, 0, 3]);
    assert_eq!(chunks.len(), 3);
    assert_eq!(chunks[0], &[10, 11][..]);
    assert_eq!(chunks[1], &[][..] as &[i32]);
    assert_eq!(chunks[2], &[12, 13, 14][..]);
    assert_eq!(rest, &[15, 16][..]);
    let mut joined: Vec<i32> = chunks.iter().flat_map(|c| c.iter().cloned()).collect();
    joined.extend_from_slice(rest);
    assert_eq!(joined, data.to_vec());
}

#[test]
fn partition_by_lens_without_lens_leaves_all() {
    let data = [1, 2, 3];
    let (chunks, rest) = partition_by_lens(&data, vec![]);
    assert!(chunks.is_empty());
    assert_eq!(rest, &data[..]);
}

#[test]
fn partition_by_lens_of_everything_leaves_nothing() {
    let data = [1, 2, 3];
    let (chunks, rest) = partition_by_lens(&data, vec![1, 2]);
    assert_eq!(chunks, vec![&[1][..], &[2, 3][..]]);
    assert!(rest.is_empty());
}

#[test]
fn partition_by_indices_cuts_at_positions() {
    let data = ['a', 'b', 'c', 'd', 'e', 'f'];
    let (chunks, rest) = partition_by_indices(&data, vec![1, 1, 4]);
    assert_eq!(chunks, vec![&['a'][..], &[][..], &['b', 'c', 'd'][..]]);
    assert_eq!(rest, &['e', 'f'][..]);
}

#[test]
fn partition_by_lens_mut_gives_pieces_that_write_through() {
    let mut data = [0u8; 6];
    {
        let (chunks, rest) = partition_by_lens_mut(&mut data, vec![2, 3]);
        assert_eq!(chunks.len(), 2);
        assert_eq!(chunks[0].len(), 2);
        assert_eq!(chunks[1].len(), 3);
        assert_eq!(rest.len(), 1);
        for (k, chunk) in chunks.into_iter().enumerate() {
            for slot in chunk.iter_mut() {
                *slot = k as u8 + 1;
            }
        }
        rest[0] = 9;
    }
    assert_eq!(data, [1, 1, 2, 2, 2, 9]);
}

#[test]
fn partition_by_indices_mut_gives_pieces_that_write_through() {
    let mut data = [0u8; 5];
    {
        let (chunks, rest) = partition_by_indices_mut(&mut data, vec![0, 3]);
        assert_eq!(chunks[0].len(), 0);
        assert_eq!(chunks[1].len(), 3);
        for chunk in chunks {
            for slot in chunk.iter_mut() {
                *slot = 4;
            }
        }
        rest[1] = 7;
    }
    assert_eq!(data, [4, 4, 4, 0, 7]);
}

#[test]
fn writer_fills_its_region_front_to_back() {
    let mut region: Vec<Option<u32>> = vec![None, None, None];
    {
        let mut writer = MutSliceWriter::new(&mut region);
        writer.emit(5);
        writer.extend(vec![6, 7]);
        assert_eq!(writer.finish(), 3);
    }
    assert_eq!(region, vec![Some(5), Some(6), Some(7)]);
}

#[test]
fn writer_leaves_unwritten_slots_alone() {
    let mut region: Vec<Option<u32>> = vec![None, None, Some(1)];
    {
        let mut writer = MutSliceWriter::new(&mut region);
        writer.extend(vec![4]);
        assert_eq!(writer.finish(), 1);
    }
    assert_eq!(region, vec![Some(4), None, Some(1)]);
}

#[test]
fn vec_takes_items_without_limit() {
    let mut out: Vec<i32> = vec![1];
    out.emit(2);
    out.emit(3);
    assert_eq!(out, vec![1, 2, 3]);
}
