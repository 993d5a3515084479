use rinex::sampling::QcSamplingAnalysis;
use rinex::sampling::data_gaps;
use rinex::sampling::decimate_by_interval;
use rinex::sampling::decimate_by_ratio;
use rinex::sampling::dominant_sample_rate;
use rinex::sampling::sampling_histogram;

/// Nanoseconds of a time of day on one calendar day.
fn utc(hms: &str) -> u64 {
    // "2015-01-01T00:09:00 UTC" -> nanoseconds since that day's midnight
    let t = hms.split('T').nth(1).unwrap().split(' ').next().unwrap();
    let parts: Vec<u64> = t.split(':').map(|x| x.parse().unwrap()).collect();
    (parts[0] * 3600 + parts[1] * 60 + parts[2]) * 1_000_000_000
}

fn seconds(s: u64) -> u64 {
    s * 1_000_000_000
}

/// A minute-by-minute run of epochs, both ends included.
fn minute_run(from: &str, to: &str, out: &mut Vec<u64>) {
    let a = utc(from);
    let b = utc(to);
    let mut t = a;
    while t <= b {
        out.push(t);
        t += seconds(60);
    }
}

#[test]
fn nav() {
    // the epoch series of one navigation file, by its sampling intervals
    let start: u64 = 0;
    let intervals: Vec<u64> = vec![
        seconds(15 * 60),
        seconds(25 * 60),
        seconds(4 * 3600 + 45 * 60),
        seconds(4 * 3600 + 45 * 60),
        seconds(5 * 3600 + 30 * 60),
    ];
    let mut epochs: Vec<u64> = vec![start];
    let mut t = start;
    for d in intervals.iter() {
        t += d;
        epochs.push(t);
    }

    let mut histogram = sampling_histogram(&epochs);
    histogram.sort();
    assert_eq!(
        histogram,
        vec![
            (seconds(15 * 60), 1),
            (seconds(25 * 60), 1),
            (seconds(4 * 3600 + 45 * 60), 2),
            (seconds(5 * 3600 + 30 * 60), 1),
        ],
        "sampling_histogram failed"
    );

    let initial_len = epochs.len();
    let decimated = decimate_by_interval(&epochs, seconds(10));
    assert!(
        initial_len == decimated.len(),
        "decim with too small time interval failed"
    );
    let decimated = decimate_by_interval(&decimated, seconds(3600));
    assert!(
        initial_len == decimated.len() + 2,
        "failed to decimate to 1 hour epoch interval"
    );

    let decimated = decimate_by_ratio(&epochs, 2);
    assert_eq!(decimated.len(), 3, "decim by 2 failed");

    let decimated = decimate_by_ratio(&decimated, 2);
    assert!(decimated.len() == 2, "decim by 2 + 2 failed");
}

#[test]
fn meteo() {
    // the epoch series of one meteo file: minute sampling with five gaps
    let mut epochs: Vec<u64> = Vec::new();
    minute_run("2015-01-01T00:00:00 UTC", "2015-01-01T00:09:00 UTC", &mut epochs);
    minute_run("2015-01-01T09:00:00 UTC", "2015-01-01T09:04:00 UTC", &mut epochs);
    minute_run("2015-01-01T19:25:00 UTC", "2015-01-01T19:54:00 UTC", &mut epochs);
    minute_run("2015-01-01T22:55:00 UTC", "2015-01-01T23:02:00 UTC", &mut epochs);
    minute_run("2015-01-01T23:09:00 UTC", "2015-01-01T23:21:00 UTC", &mut epochs);
    minute_run("2015-01-01T23:52:00 UTC", "2015-01-01T23:59:00 UTC", &mut epochs);

    assert_eq!(dominant_sample_rate(&epochs), Some(seconds(60)));

    assert_eq!(
        data_gaps(&epochs, None),
        vec![
            (utc("2015-01-01T00:09:00 UTC"), 31860000000000),
            (utc("2015-01-01T09:04:00 UTC"), 37260000000000),
            (utc("2015-01-01T19:54:00 UTC"), 10860000000000),
            (utc("2015-01-01T23:02:00 UTC"), 420000000000),
            (utc("2015-01-01T23:21:00 UTC"), 1860000000000),
        ],
        "data_gaps(tol=None) failed"
    );
    assert_eq!(
        data_gaps(&epochs, Some(seconds(10 * 60))),
        vec![
            (utc("2015-01-01T00:09:00 UTC"), 31860000000000),
            (utc("2015-01-01T09:04:00 UTC"), 37260000000000),
            (utc("2015-01-01T19:54:00 UTC"), 10860000000000),
            (utc("2015-01-01T23:21:00 UTC"), 1860000000000),
        ],
        "data_gaps(tol=10') failed"
    );
    assert_eq!(
        data_gaps(&epochs, Some(seconds(3 * 3600))),
        vec![
            (utc("2015-01-01T00:09:00 UTC"), 31860000000000),
            (utc("2015-01-01T09:04:00 UTC"), 37260000000000),
            (utc("2015-01-01T19:54:00 UTC"), 10860000000000),
        ],
        "data_gaps(tol=3h) failed"
    );
}

#[test]
fn sampling_analysis_summary() {
    let epochs: Vec<u64> = vec![0, seconds(60), seconds(120), seconds(180), seconds(600)];
    let qc = QcSamplingAnalysis::new(&epochs, Some(seconds(60)), None);
    assert_eq!(qc.first_epoch, Some(0));
    assert_eq!(qc.last_epoch, Some(seconds(600)));
    assert_eq!(qc.duration, Some(seconds(600)));
    assert_eq!(qc.sample_rate, Some(seconds(60)));
    assert_eq!(qc.dominant_sample_rate, Some(seconds(60)));
    assert_eq!(qc.gaps, vec![(seconds(180), seconds(420))]);
}

#[test]
fn sampling_analysis_empty() {
    let epochs: Vec<u64> = Vec::new();
    let qc = QcSamplingAnalysis::new(&epochs, None, None);
    assert_eq!(qc.first_epoch, None);
    assert_eq!(qc.last_epoch, None);
    assert_eq!(qc.duration, None);
    assert_eq!(qc.sample_rate, None);
    assert_eq!(qc.dominant_sample_rate, None);
    assert!(qc.gaps.is_empty());
}

#[test]
fn dominant_rate_prefers_smaller_on_tie() {
    let epochs: Vec<u64> = vec![0, 30, 60, 120, 180];
    // intervals: 30, 30, 60, 60 -- a tie, the smaller one wins
    assert_eq!(dominant_sample_rate(&epochs), Some(30));
}
