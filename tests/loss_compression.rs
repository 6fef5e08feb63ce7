use srt::loss_compression::{
    compress_loss_list, decompress_loss_list, CompressLossList, DecompressLossList,
    LossListError, RUN_FLAG,
};
use srt::seq_number::SeqNumber;

const ONE: u32 = 1 << 31;

fn seqs(xs: &[u32]) -> Vec<SeqNumber> {
    xs.iter().copied().map(SeqNumber::new_truncate).collect()
}

fn comp_decomp(xs: &[u32], ys: &[u32]) {
    assert_eq!(
        compress_loss_list(seqs(xs)),
        Ok(ys.to_vec()),
        "Compressed wasn't same as given"
    );
    assert_eq!(
        decompress_loss_list(ys.to_vec()),
        Ok(seqs(xs)),
        "Decompressed not same as given"
    );
}

#[test]
fn loss_compression_test() {
    comp_decomp(&[13, 14, 15, 16, 17, 18, 19], &[13 | ONE, 19]);
    comp_decomp(
        &[1, 2, 3, 4, 5, 9, 11, 12, 13, 16, 17],
        &[1 | ONE, 5, 9, 11 | ONE, 13, 16 | ONE, 17],
    );
    comp_decomp(&[15, 16], &[15 | ONE, 16]);
    comp_decomp(
        &[1_687_761_238, 1_687_761_239],
        &[1_687_761_238 | ONE, 1_687_761_239],
    );
}

#[test]
fn invalid_ordering() {
    assert_eq!(
        compress_loss_list(seqs(&[10, 1])),
        Err(LossListError::OrderingViolation)
    );
}

#[test]
fn unterminated_loop() {
    assert_eq!(
        decompress_loss_list(vec![10 | ONE]),
        Err(LossListError::UnterminatedRun)
    );
}

#[test]
fn run_flag_is_top_bit() {
    assert_eq!(RUN_FLAG, 0x8000_0000);
}

#[test]
fn empty_and_single() {
    comp_decomp(&[], &[]);
    comp_decomp(&[7], &[7]);
    comp_decomp(&[0, 2, 4], &[0, 2, 4]);
}

#[test]
fn duplicate_is_rejected() {
    assert_eq!(
        compress_loss_list(seqs(&[5, 5])),
        Err(LossListError::OrderingViolation)
    );
}

#[test]
fn run_across_wrap() {
    let max = ONE - 1;
    comp_decomp(&[max - 1, max, 0, 1], &[(max - 1) | ONE, 1]);
    comp_decomp(&[max, 0], &[max | ONE, 0]);
    comp_decomp(&[max - 3, max, 2], &[max - 3, max, 2]);
}

#[test]
fn ordering_is_modular() {
    let max = ONE - 1;
    assert!(compress_loss_list(seqs(&[max, 3])).is_ok());
    assert_eq!(
        compress_loss_list(seqs(&[0, 0x4000_0000])),
        Err(LossListError::OrderingViolation)
    );
}

#[test]
fn bulk_loss_fits_in_two_words() {
    let xs: Vec<u32> = (100..1600).collect();
    comp_decomp(&xs, &[100 | ONE, 1599]);
}

#[test]
fn run_end_word_is_truncated() {
    assert_eq!(decompress_loss_list(vec![3 | ONE, 5 | ONE]), Ok(seqs(&[3, 4, 5])));
}

#[test]
fn error_after_decoded_prefix() {
    assert_eq!(
        decompress_loss_list(vec![1, 2 | ONE, 4, 9 | ONE]),
        Err(LossListError::UnterminatedRun)
    );
}

#[test]
fn compress_producer_hands_out_words() {
    let mut c = CompressLossList::new(seqs(&[1, 2, 3, 8])).unwrap();
    assert_eq!(c.next(), Some(1 | ONE));
    assert_eq!(c.next(), Some(3));
    assert_eq!(c.next(), Some(8));
    assert_eq!(c.next(), None);
    assert_eq!(c.next(), None);
    assert!(CompressLossList::new(seqs(&[4, 4])).is_err());
}

#[test]
fn decompress_producer_hands_out_numbers() {
    let mut d = DecompressLossList::new(vec![6, 8 | ONE, 10, 12 | ONE]);
    assert_eq!(d.next(), Ok(Some(SeqNumber::new_truncate(6))));
    assert_eq!(d.next(), Ok(Some(SeqNumber::new_truncate(8))));
    assert_eq!(d.next(), Ok(Some(SeqNumber::new_truncate(9))));
    assert_eq!(d.next(), Ok(Some(SeqNumber::new_truncate(10))));
    assert_eq!(d.next(), Err(LossListError::UnterminatedRun));
    assert_eq!(d.next(), Ok(None));
}
