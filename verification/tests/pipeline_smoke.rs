use sdivi::error::ExitCode;

#[test]
fn analysis_error_exit_code_is_three() {
    assert_eq!(ExitCode::AnalysisError.as_i32(), 3);
}

#[test]
fn threshold_exceeded_exit_code_is_ten_and_exclusive_to_check() {
    assert_eq!(ExitCode::ThresholdExceeded.as_i32(), 10);
    let all_codes = [
        ExitCode::Success,
        ExitCode::RuntimeError,
        ExitCode::ConfigError,
        ExitCode::AnalysisError,
    ];
    for code in all_codes {
        assert_ne!(
            code.as_i32(),
            10,
            "{code:?} must not share the exit code reserved for ThresholdExceeded"
        );
    }
}

#[test]
fn exit_codes_are_distinct_and_exact() {
    let codes = [
        ExitCode::Success.as_i32(),
        ExitCode::RuntimeError.as_i32(),
        ExitCode::ConfigError.as_i32(),
        ExitCode::AnalysisError.as_i32(),
        ExitCode::ThresholdExceeded.as_i32(),
    ];
    assert_eq!(codes, [0, 1, 2, 3, 10]);
    for i in 0..codes.len() {
        for j in 0..codes.len() {
            if i != j {
                assert_ne!(codes[i], codes[j]);
            }
        }
    }
}
