use aspx::bands::AspxBandTables;
use aspx::element::{parse_hfgen_1ch, AspxData};
use aspx::reach::{collect_aspx_reach, AspxReach};
use aspx::reader::{BitReader, ReadError};
use aspx::syntax::AspxHfGen;
use aspx::tables::IntervalClass;

fn element() -> AspxData {
    let mut data = AspxData::empty();
    data.channels = 1;
    data.bands = AspxBandTables::derive(true, 0, 0, 1, 0).expect("the tables exist");
    data
}

#[test]
fn every_branch_is_observed() {
    assert_eq!(collect_aspx_reach(&[element()]), AspxReach::default());

    let mut variable = element();
    variable.framing[0].params.int_class = IntervalClass::VarFix;
    assert_eq!(collect_aspx_reach(&[variable]), AspxReach::new(false, false, true, false));

    let mut harmonic = element();
    harmonic.hfgen[0] = AspxHfGen::from_parts(&[0, 0], &[false, true]);
    assert_eq!(collect_aspx_reach(&[harmonic]), AspxReach::new(true, false, false, false));

    let mut interleaved = element();
    // Two modes, no sinusoids, no groups; the flags of 16 timeslots follow.
    let bits = [0b0000_0011, 0b0000_0000, 0b0000_0000];
    parse_hfgen_1ch(&mut BitReader::new(&bits), &mut interleaved, 16).expect("the flags parse");
    assert_eq!(collect_aspx_reach(&[interleaved]), AspxReach::new(false, true, false, false));

    let mut balanced = element();
    balanced.channels = 2;
    balanced.balance = Some(true);
    assert_eq!(collect_aspx_reach(&[balanced]), AspxReach::new(false, false, false, true));
}

#[test]
fn a_single_channel_hides_the_second() {
    let mut data = element();
    data.hfgen[1] = AspxHfGen::from_parts(&[0, 0], &[true]);
    assert!(!collect_aspx_reach(&[data.clone()]).add_harmonic());
    data.channels = 2;
    data.balance = Some(false);
    assert!(collect_aspx_reach(&[data]).add_harmonic());
}

#[test]
fn observations_merge() {
    let mut left = AspxReach::new(true, false, false, false);
    let right = AspxReach::new(false, false, true, false);
    left.merge(right);
    assert_eq!(left, AspxReach::new(true, false, true, false));
    assert!(left.add_harmonic() && left.variable_framing());
    assert!(!left.interleaved() && !left.balance());

    let mut variable = element();
    variable.framing[0].params.int_class = IntervalClass::FixVar;
    let mut harmonic = element();
    harmonic.hfgen[0] = AspxHfGen::from_parts(&[0], &[true]);
    let mut apart = collect_aspx_reach(&[variable.clone()]);
    apart.merge(collect_aspx_reach(&[harmonic.clone()]));
    assert_eq!(collect_aspx_reach(&[variable, harmonic]), apart);
}

#[test]
fn bits_are_read_most_significant_first() {
    let data = [0b1010_0101, 0xff, 0x00];
    let mut reader = BitReader::new(&data);
    assert_eq!(reader.bits_left(), 24);
    assert_eq!(reader.read_flag(), Ok(true));
    assert_eq!(reader.read_bits(3), Ok(0b010));
    assert_eq!(reader.read_bits(8), Ok(0b0101_1111));
    assert_eq!(reader.bit_position(), 12);
    assert_eq!(
        reader.read_bits(13),
        Err(ReadError::EndOfData { needed: 13, available: 12 })
    );
    assert_eq!(reader.bit_position(), 12, "a failed read consumes nothing");
    assert_eq!(reader.read_bits(12), Ok(0b1111_0000_0000));
    assert_eq!(reader.read_flag(), Err(ReadError::EndOfData { needed: 1, available: 0 }));
    assert_eq!(reader.read_bits(0), Ok(0));

    let mut wide = BitReader::new(&[0x12, 0x34, 0x56, 0x78]);
    assert_eq!(wide.read_bits(32), Ok(0x1234_5678));
}
