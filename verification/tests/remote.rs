use flamenco_tuner::identity::{certificate_names, new_identity};
use flamenco_tuner::ieee::{Real32, Real64};
use flamenco_tuner::remote::{
    accepts_rate, announce, decode_samples, parse_name, parse_sr as rate_numeral, react,
    service_url, Incoming, Path, Reaction, Registry, Resampler, REMOTE_RING_LEN,
};
use flamenco_tuner::stream::{perform, Action, Ear, PhoneStream};

fn sine(freq: f32, sr: f32, n: usize) -> Vec<f32> {
    (0..n)
        .map(|i| (2.0 * std::f32::consts::PI * freq * i as f32 / sr).sin())
        .collect()
}

/// The sample rate in a message.
fn parse_sr(text: &str) -> Option<f32> {
    let sr: f32 = rate_numeral(text)?.parse().ok()?;
    accepts_rate(&Real32::from_bits(sr.to_bits())).then_some(sr)
}

fn real32(v: f32) -> Real32 {
    Real32::from_bits(v.to_bits())
}

fn float64(r: Real64) -> f64 {
    f64::from_bits(r.bits)
}

fn real64(v: f64) -> Real64 {
    Real64::from_bits(v.to_bits())
}

fn ratio(in_rate: Real32, out_rate: Real32) -> Real64 {
    real64(f32::from_bits(in_rate.bits) as f64 / f32::from_bits(out_rate.bits) as f64)
}

fn whole(p: Real64) -> usize {
    float64(p).floor() as usize
}

fn advance(p: Real64, step: Real64) -> Real64 {
    real64(float64(p) + float64(step))
}

fn rewind(p: Real64, n: usize) -> Real64 {
    real64(float64(p) - n as f64)
}

fn blend(a: f32, b: f32, p: Real64, k: usize) -> f32 {
    let frac = (float64(p) - k as f64) as f32;
    a * (1.0 - frac) + b * frac
}

/// Linear interpolation.
struct Linear {
    samples: Resampler<f32>,
}

impl Linear {
    fn new(in_rate: f32, out_rate: f32) -> Self {
        Linear { samples: Resampler::new(real32(in_rate), real32(out_rate), &ratio) }
    }

    fn process(&mut self, input: &[f32], out: &mut Vec<f32>) {
        self.samples.process(&input.to_vec(), out, &Path { whole, advance, rewind, blend });
    }

    fn pos(&self) -> f64 {
        float64(self.samples.pos)
    }
}

#[test]
fn resampler_rate_conversion() {
    let mut rs = Linear::new(44100.0, 48000.0);
    let input = sine(100.0, 44100.0, 44100); // 1 second
    let mut out = Vec::new();
    // Feed in audio-callback-sized chunks.
    for chunk in input.chunks(2048) {
        rs.process(chunk, &mut out);
    }
    let expected = 48000.0 * (input.len() as f64 / 44100.0);
    assert!(
        (out.len() as f64 - expected).abs() < 4.0,
        "got {} samples, expected ~{expected}",
        out.len()
    );
    // Continuity: a 100 Hz sine at 48 kHz moves at most ~0.0131/sample.
    let max_step = out
        .windows(2)
        .map(|w| (w[1] - w[0]).abs())
        .fold(0.0f32, f32::max);
    assert!(max_step < 0.02, "discontinuity: {max_step}");
}

#[test]
fn resampler_bounded_under_drift() {
    // Device clock 0.1% fast: position offset must stay bounded per
    // block (the ring cap handles the long-term rate mismatch).
    let mut rs = Linear::new(48048.0, 48000.0);
    let mut out = Vec::new();
    for _ in 0..500 {
        // ~10 s in 1024-sample blocks
        rs.process(&[0.1f32; 1024], &mut out);
        assert!(rs.pos() >= 0.0 && rs.pos() < 2.0, "pos drifted: {}", rs.pos());
    }
    let expected = 500.0 * 1024.0 * (48000.0 / 48048.0);
    assert!((out.len() as f64 - expected).abs() < 8.0);
}

#[test]
fn resampler_joins_blocks() {
    let mut rs: Resampler<i32> = Resampler::new(real32(48000.0), real32(48000.0), &ratio);
    let path = Path { whole, advance, rewind, blend: |a: i32, b: i32, _, k: usize| (a, b, k) };
    let mut out = vec![(0, 0, 9)];
    // The first sample stands before itself at the start.
    rs.process(&vec![10, 20, 30], &mut out, &path);
    assert_eq!(out, vec![(0, 0, 9), (10, 10, 0), (10, 20, 1), (20, 30, 2)]);
    // A block without samples changes nothing.
    out.clear();
    rs.process(&Vec::new(), &mut out, &path);
    assert_eq!(out, Vec::new());
    // Then the last sample of the block before does.
    rs.process(&vec![40, 50], &mut out, &path);
    assert_eq!(out, vec![(30, 40, 0), (40, 50, 1)]);
}

#[test]
fn outputs_stand_where_the_grid_has_them() {
    // Two outputs to a sample, and two samples to an output.
    for (rate, step) in [(24000.0, 0.5f64), (96000.0, 2.0)] {
        let input: Vec<f32> = (0..101).map(|i| (i * i % 37) as f32).collect();
        let mut v = vec![input[0]];
        v.extend(&input);
        let expected: Vec<f32> = (0..(101.0 / step).ceil() as usize)
            .map(|m| {
                let at = m as f64 * step;
                let k = at.floor() as usize;
                let f = (at - k as f64) as f32;
                v[k] * (1.0 - f) + v[k + 1] * f
            })
            .collect();
        for size in [1, 2, 3, 7, 50, 101] {
            let mut rs = Linear::new(rate, 48000.0);
            let mut out = Vec::new();
            for block in input.chunks(size) {
                rs.process(block, &mut out);
                assert!(rs.pos() < step);
            }
            assert_eq!(out, expected);
        }
    }
}

#[test]
fn parses_sample_rate_message() {
    assert_eq!(parse_sr(r#"{"sr": 44100}"#), Some(44100.0));
    assert_eq!(parse_sr(r#"{"sr":48000.0}"#), Some(48000.0));
    assert_eq!(parse_sr("nonsense"), None);
}

#[test]
fn sample_rates_are_checked() {
    assert_eq!(parse_sr(r#"{"sr": 8000}"#), Some(8000.0));
    assert_eq!(parse_sr(r#"{"sr": 7999}"#), None);
    assert_eq!(parse_sr(r#"{"sr": 192000}"#), Some(192000.0));
    assert_eq!(parse_sr(r#"{"sr": 192001}"#), None);
    assert_eq!(parse_sr(r#"{"sr": 48000.5.1}"#), None);
    assert_eq!(parse_sr(r#"{"sr": null}"#), None);
    assert_eq!(parse_sr(r#"{"sr"#), None);
    // The first number behind the key counts, wherever it stands.
    assert_eq!(parse_sr(r#"{"x": 1, "sr": "rate 44100.5 Hz"}"#), Some(44100.5));
    assert_eq!(rate_numeral(r#""sr": 12."#), Some("12.".to_string()));
}

#[test]
fn parses_name_message() {
    assert_eq!(
        parse_name(r#"{"sr": 44100, "name": "iPhone 15"}"#),
        Some("iPhone 15".to_string())
    );
    assert_eq!(parse_name(r#"{"name":""}"#), None);
    assert_eq!(parse_name(r#"{"sr": 44100}"#), None);
}

#[test]
fn names_are_trimmed_and_cut() {
    assert_eq!(parse_name("{\"name\": \"  \u{3000}Zoë \t\"}"), Some("Zoë".to_string()));
    assert_eq!(parse_name(r#"{"name": "   "}"#), None);
    assert_eq!(parse_name(r#"{"name": "unfinished}"#), None);
    assert_eq!(parse_name(r#"{"name": }"#), None);
    let long = parse_name(r#"{"name": "ñandúñandúñandúñandúñandú"}"#).unwrap();
    assert_eq!(long.chars().count(), 20);
    assert_eq!(long, "ñandúñandúñandúñandú");
}

#[test]
fn white_space_is_that_of_unicode() {
    for u in 0..=0x10ffffu32 {
        if let Some(c) = char::from_u32(u) {
            assert_eq!(flamenco_tuner::text::space(c), c.is_whitespace());
        }
    }
}

#[test]
fn samples_are_decoded() {
    let values = [0.0f32, -1.5, f32::MIN_POSITIVE, 0.1];
    let mut bytes: Vec<u8> = Vec::new();
    for v in values {
        bytes.extend(v.to_le_bytes());
    }
    bytes.extend([1, 2, 3]); // no whole sample
    let decoded = decode_samples(&bytes);
    assert_eq!(decoded.len(), 4);
    for (d, v) in decoded.iter().zip(values) {
        assert_eq!(d.bits, v.to_bits());
    }
}

#[test]
fn messages_are_answered() {
    match react(&Incoming::Text(r#"{"sr": 44100, "name": "Pixel"}"#.to_string())) {
        Reaction::Hello(rate, name) => {
            assert_eq!(rate, Some("44100".to_string()));
            assert_eq!(name, Some("Pixel".to_string()));
        }
        _ => panic!("no introduction"),
    }
    match react(&Incoming::Binary(vec![0, 0, 128, 63])) {
        Reaction::Samples(s) => assert_eq!(s, vec![Real32::from_bits(1.0f32.to_bits())]),
        _ => panic!("no samples"),
    }
    assert!(matches!(react(&Incoming::Close), Reaction::Stop));
    assert!(matches!(react(&Incoming::Other), Reaction::Nothing));
}

#[test]
fn registry_tracks_multiple_clients() {
    let mut reg: Registry<f32> = Registry::new();
    let a = reg.add("iPhone".into());
    let b = reg.add("Pixel".into());
    assert_eq!(reg.clients.len(), 2);
    assert_ne!(a, b);

    reg.receive(a, Real32::from_bits(0), &vec![0.5f32; 100]);
    let at = reg.find(a).unwrap();
    let (snap, total) = reg.clients[at].snapshot();
    assert_eq!((snap.len(), total), (100, 100));
    let bt = reg.find(b).unwrap();
    assert_eq!(reg.clients[bt].snapshot().0.len(), 0);

    reg.remove(a);
    let left = &reg.clients;
    assert_eq!(left.len(), 1);
    assert_eq!(left[0].name, "Pixel");
}

#[test]
fn queues_keep_the_newest_samples() {
    let mut reg: Registry<u32> = Registry::new();
    let id = reg.add("phone".to_string());
    let level = Real32::from_bits(0.25f32.to_bits());
    let first: Vec<u32> = (0..10_000).collect();
    let second: Vec<u32> = (10_000..20_000).collect();
    reg.receive(id, level, &first);
    reg.receive(id, level, &second);
    let (snap, total) = reg.clients[0].snapshot();
    assert_eq!(total, 20_000);
    assert_eq!(snap.len(), REMOTE_RING_LEN);
    assert_eq!(snap, (20_000 - REMOTE_RING_LEN as u32..20_000).collect::<Vec<u32>>());
    assert_eq!(reg.clients[0].level, level);

    // Nobody else is affected by what a stranger sends.
    reg.rename(77, "stranger".to_string());
    reg.receive(77, level, &first);
    assert_eq!(reg.clients.len(), 1);
    reg.rename(id, "Zoë".to_string());
    assert_eq!(reg.clients[0].name, "Zoë");
    // An identity is never given twice.
    reg.remove(id);
    assert_ne!(reg.add("again".to_string()), id);
}

#[test]
fn address_of_the_service() {
    assert_eq!(
        service_url(&Some("192.168.1.7".to_string())),
        Ok("https://192.168.1.7:7777".to_string())
    );
    assert_eq!(service_url(&None), Err("no LAN address found".to_string()));
    let url = "https://192.168.1.7:7777".to_string();
    assert_eq!(announce(url.clone(), Ok(())), Ok(url.clone()));
    assert_eq!(
        announce(url, Err("address in use".to_string())),
        Err("phone mic service failed (https://192.168.1.7:7777): address in use".to_string())
    );
}

#[test]
fn certificate_is_made_for_both_names() {
    assert_eq!(certificate_names(&None), vec!["localhost", "localhost"]);
    let ip = Some("192.168.1.7".to_string());
    let id = match new_identity(&ip) {
        Ok(id) => id,
        Err(e) => panic!("no certificate: {}", e.cause),
    };
    assert_eq!(id.names, vec!["localhost", "192.168.1.7"]);
    // Both are DER sequences; the certificate holds the names.
    assert_eq!(id.certificate[0], 0x30);
    assert_eq!(id.key[0], 0x30);
    assert!(id.certificate.windows(11).any(|w| w == b"\x82\x09localhost"));
    assert!(id.certificate.windows(6).any(|w| w == [0x87, 4, 192, 168, 1, 7]));
    // Keys are drawn anew each time.
    let other = match new_identity(&ip) {
        Ok(id) => id,
        Err(e) => panic!("no certificate: {}", e.cause),
    };
    assert_ne!(id.key, other.key);
}

#[test]
fn bad_names_give_no_certificate() {
    // A name in a certificate is ASCII.
    assert!(new_identity(&Some("ñandú".to_string())).is_err());
}

#[test]
fn identities_are_never_given_twice() {
    let mut reg: Registry<u8> = Registry::new();
    let mut given = Vec::new();
    for round in 0..5u64 {
        let id = reg.add(format!("phone {round}"));
        assert!(!given.contains(&id));
        given.push(id);
        if round % 2 == 0 {
            reg.remove(id);
            assert_eq!(reg.find(id), None);
        }
    }
    let left: Vec<u64> = reg.clients.iter().map(|c| c.id).collect();
    assert_eq!(left, vec![given[1], given[3]]);
}

#[test]
fn frames_of_two_phones_are_kept_apart() {
    let mut reg: Registry<u32> = Registry::new();
    let (a, b) = (reg.add("a".to_string()), reg.add("b".to_string()));
    let level = |k: u32| Real32::from_bits((k as f32).to_bits());
    for k in 0..400u32 {
        reg.receive(a, level(k), &(100 * k..100 * k + 100).collect());
        reg.receive(b, level(7), &vec![k]);
    }
    reg.rename(b, "Zoë".to_string());
    let first = &reg.clients[reg.find(a).unwrap()];
    let (snap, total) = first.snapshot();
    assert_eq!(total, 40_000);
    assert_eq!(snap, (40_000 - REMOTE_RING_LEN as u32..40_000).collect::<Vec<u32>>());
    assert_eq!((first.level, first.name.as_str()), (level(399), "a"));
    let second = &reg.clients[reg.find(b).unwrap()];
    assert_eq!(second.snapshot(), ((0..400).collect(), 400));
    assert_eq!((second.level, second.name.as_str()), (level(7), "Zoë"));
}

#[test]
fn resampler_does_not_care_how_a_stream_is_cut() {
    let input: Vec<f32> = sine(440.0, 48000.0, 4800);
    let run = |blocks: &[&[f32]]| {
        let mut rs = Linear::new(48000.0, 44100.0);
        let mut out = Vec::new();
        for block in blocks {
            rs.process(block, &mut out);
        }
        out
    };
    let whole = run(&[&input[..]]);
    // As many as the positions 0, step, 2 step, ... that lie below 4800.
    assert_eq!(whole.len(), 4410);
    let cut = run(&[&input[..1], &[], &input[1..100], &input[100..]]);
    assert_eq!(cut.len(), whole.len());
    assert!(cut.iter().zip(&whole).all(|(a, b)| (a - b).abs() < 1e-4));
}

#[test]
fn named_hosts_stand_in_the_certificate() {
    let id = match new_identity(&Some("tuner.example".to_string())) {
        Ok(id) => id,
        Err(e) => panic!("no certificate: {}", e.cause),
    };
    assert!(id.certificate.windows(15).any(|w| w == b"\x82\x0dtuner.example"));
    assert!(id.certificate.windows(11).any(|w| w == b"\x82\x09localhost"));
}

#[test]
fn phone_is_heard_whole() {
    let ear = Ear {
        parse: |n: String| n.parse().ok().map(real32),
        level: |v: Vec<Real32>| v.last().copied().unwrap_or(real32(0.0)),
        ratio,
        path: Path {
            whole,
            advance,
            rewind,
            blend: |a: Real32, b: Real32, p, k| {
                blend(f32::from_bits(a.bits), f32::from_bits(b.bits), p, k)
            },
        },
    };
    let mut registry: Registry<f32> = Registry::new();
    let mut other = PhoneStream::join(&mut registry, real32(24000.0), &ratio);
    let mut stream = PhoneStream::join(&mut registry, real32(24000.0), &ratio);
    assert_eq!((other.id, stream.id), (0, 1));
    // Every other sample is left at half the rate; the last byte makes no sample.
    for frame in 0..100u32 {
        let mut bytes: Vec<u8> = (0..400u32)
            .flat_map(|i| ((400 * frame + i) as f32).to_le_bytes())
            .collect();
        bytes.push(7);
        let action = stream.hear(&Incoming::Binary(bytes), &ear);
        assert!(perform(&mut registry, 1, action));
        let noise = other.hear(&Incoming::Binary(vec![0; 12]), &ear);
        assert!(perform(&mut registry, 0, noise));
    }
    let (snap, total) = registry.clients[1].snapshot();
    assert_eq!((total, snap.len()), (20_000, REMOTE_RING_LEN));
    assert_eq!(snap[REMOTE_RING_LEN - 1], 39_997.0);
    assert!(snap.windows(2).all(|w| w[1] - w[0] == 2.0));
    assert_eq!(registry.clients[1].level, real32(39_999.0));
    assert_eq!(registry.clients[1].name, "phone");

    // A rate starts the resampler afresh, a name renames; other texts do neither.
    let hello = Incoming::Text(r#"{"sr": 24000, "name": "Pixel"}"#.to_string());
    let action = stream.hear(&hello, &ear);
    assert!(matches!(&action, Action::Rename(n) if n == "Pixel"));
    assert!(perform(&mut registry, 1, action));
    assert_eq!(registry.clients[1].name, "Pixel");
    assert_eq!((float64(stream.resampler.step), stream.resampler.last), (1.0, None));
    let text = Incoming::Text(r#"{"sr": 7}"#.to_string());
    assert!(matches!(stream.hear(&text, &ear), Action::Nothing));
    assert_eq!(float64(stream.resampler.step), 1.0);
    assert!(matches!(stream.hear(&Incoming::Other, &ear), Action::Nothing));
    let end = stream.hear(&Incoming::Close, &ear);
    assert!(!perform(&mut registry, 1, end));
    registry.remove(1);
    assert_eq!(registry.clients.len(), 1);
    assert_eq!(registry.clients[0].id, 0);
}
