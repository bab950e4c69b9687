use flow_monitor::channel::ChannelController;
use flow_monitor::framer::LineFramer;
use flow_monitor::parse::parse_micros;
use flow_monitor::rat::{from_micros, remap, Rat};

fn rat(num: i128, den: i128) -> Rat {
    Rat { num, den }
}

#[test]
fn parse_plain_integers() {
    assert_eq!(parse_micros(&b"0".to_vec()), Some(0));
    assert_eq!(parse_micros(&b"512".to_vec()), Some(512_000_000));
    assert_eq!(parse_micros(&b"+2".to_vec()), Some(2_000_000));
    assert_eq!(parse_micros(&b"-7".to_vec()), Some(-7_000_000));
}

#[test]
fn parse_decimals() {
    assert_eq!(parse_micros(&b"3.3".to_vec()), Some(3_300_000));
    assert_eq!(parse_micros(&b"1.6".to_vec()), Some(1_600_000));
    assert_eq!(parse_micros(&b"2.0".to_vec()), Some(2_000_000));
    assert_eq!(parse_micros(&b"-0.5".to_vec()), Some(-500_000));
    assert_eq!(parse_micros(&b"0.000001".to_vec()), Some(1));
    assert_eq!(parse_micros(&b"5.".to_vec()), Some(5_000_000));
    assert_eq!(parse_micros(&b"007".to_vec()), Some(7_000_000));
}

#[test]
fn parse_rejects_noise() {
    assert_eq!(parse_micros(&b"".to_vec()), None);
    assert_eq!(parse_micros(&b"abc".to_vec()), None);
    assert_eq!(parse_micros(&b"1.2.3".to_vec()), None);
    assert_eq!(parse_micros(&b".5".to_vec()), None);
    assert_eq!(parse_micros(&b"1e3".to_vec()), None);
    assert_eq!(parse_micros(&b"1 2".to_vec()), None);
    assert_eq!(parse_micros(&b"-".to_vec()), None);
}

#[test]
fn parse_magnitude_limit() {
    assert_eq!(parse_micros(&b"999999999.999999".to_vec()), Some(999_999_999_999_999));
    assert_eq!(parse_micros(&b"1000000000".to_vec()), Some(1_000_000_000_000_000));
    assert_eq!(parse_micros(&b"1000000001".to_vec()), None);
    assert_eq!(parse_micros(&b"1.2345678".to_vec()), None);
}

#[test]
fn framer_splits_and_trims() {
    let mut f = LineFramer::new();
    f.push(&b"ab".to_vec());
    assert!(f.next_frame().is_none());
    f.push(&b"c\n  7.5\r\nrest".to_vec());
    assert_eq!(f.next_frame(), Some(b"abc".to_vec()));
    assert_eq!(f.next_frame(), Some(b"7.5".to_vec()));
    assert!(f.next_frame().is_none());
    f.push(&b"\n".to_vec());
    assert_eq!(f.next_frame(), Some(b"rest".to_vec()));
}

#[test]
fn framer_chunking_invariance() {
    let stream: &[u8] = b"1.0\n2.5\nabc\n-3\n";
    let mut whole = LineFramer::new();
    whole.push(&stream.to_vec());
    let mut frames_whole = Vec::new();
    while let Some(fr) = whole.next_frame() {
        frames_whole.push(fr);
    }
    for cut in 0..stream.len() {
        let mut split = LineFramer::new();
        split.push(&stream[..cut].to_vec());
        let mut frames_split = Vec::new();
        while let Some(fr) = split.next_frame() {
            frames_split.push(fr);
        }
        split.push(&stream[cut..].to_vec());
        while let Some(fr) = split.next_frame() {
            frames_split.push(fr);
        }
        assert_eq!(frames_split, frames_whole);
    }
}

#[test]
fn window_keeps_last_two() {
    let mut ch = ChannelController::new("dev0".to_string(), 2);
    ch.ingest(&b"3.3\n1.6\n2.0\n".to_vec());
    let snap = ch.buffer.snapshot();
    assert_eq!(snap, vec![rat(1_600_000, 1_000_000), rat(2_000_000, 1_000_000)]);
}

#[test]
fn unparsable_frame_appends_nothing() {
    let mut ch = ChannelController::new("dev0".to_string(), 8);
    ch.ingest(&b"abc\n".to_vec());
    assert!(ch.buffer.snapshot().is_empty());
    ch.ingest(&b"1.5\n".to_vec());
    assert_eq!(ch.buffer.snapshot(), vec![rat(1_500_000, 1_000_000)]);
}

#[test]
fn remap_midpoint_of_adc_range() {
    let r = remap(512_000_000, 0, 1_024_000_000, 0, 3_300_000);
    assert!(r.den > 0);
    assert_eq!(r.num * 100, 165 * r.den);
}

#[test]
fn remap_endpoints_land_on_output_range() {
    let a = -2_000_000;
    let b = 10_000_000;
    let c = 1_000_000;
    let d = 4_500_000;
    let lo = remap(a, a, b, c, d);
    let hi = remap(b, a, b, c, d);
    assert_eq!(lo.num * 1_000_000, (c as i128) * lo.den);
    assert_eq!(hi.num * 1_000_000, (d as i128) * hi.den);
}

#[test]
fn remap_is_monotonic_in_value() {
    let mut prev: Option<Rat> = None;
    for v in [-5_000_000i64, 0, 1_000_000, 2_500_000, 9_000_000] {
        let r = remap(v, -5_000_000, 9_000_000, 0, 3_300_000);
        if let Some(p) = prev {
            assert!(p.num * r.den <= r.num * p.den);
        }
        prev = Some(r);
    }
}

#[test]
fn disabling_remap_is_not_retroactive() {
    let mut ch = ChannelController::new("dev0".to_string(), 8);
    let mut cfg = ch.config.clone();
    cfg.enable_convert = true;
    assert!(ch.set_config(cfg));
    ch.ingest(&b"512\n".to_vec());

    let mut cfg = ch.config.clone();
    cfg.enable_convert = false;
    assert!(ch.set_config(cfg));
    ch.ingest(&b"512\n".to_vec());

    let snap = ch.buffer.snapshot();
    assert_eq!(snap.len(), 2);
    // The remapped sample is untouched by the later configuration change.
    assert_eq!(snap[0].num * 100, 165 * snap[0].den);
    // The later sample is the raw parsed value again.
    assert_eq!(snap[1], rat(512_000_000, 1_000_000));
}

#[test]
fn from_micros_embeds_exactly() {
    assert_eq!(from_micros(-42), rat(-42, 1_000_000));
    assert_eq!(from_micros(3_300_000), rat(3_300_000, 1_000_000));
}

#[test]
fn ingest_keeps_partial_frames_across_chunks() {
    let mut ch = ChannelController::new("dev0".to_string(), 8);
    ch.ingest(&b"1.".to_vec());
    assert!(ch.buffer.snapshot().is_empty());
    ch.ingest(&b"5\n2".to_vec());
    assert_eq!(ch.buffer.snapshot(), vec![rat(1_500_000, 1_000_000)]);
    ch.ingest(&b"\n".to_vec());
    assert_eq!(
        ch.buffer.snapshot(),
        vec![rat(1_500_000, 1_000_000), rat(2_000_000, 1_000_000)]
    );
}
