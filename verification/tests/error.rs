use cargo_depgate::error::{exit_code_for, Error};

fn error_cases() -> Vec<(Error, u8)> {
    vec![
        (Error::PolicyViolations { count: 2 }, 1),
        (Error::Configuration { message: "invalid rule".to_owned(), span: None }, 2),
        (Error::Usage { message: "missing argument".to_owned() }, 2),
        (Error::NotYetImplemented { subcommand: "check".to_owned() }, 2),
        (Error::CargoMetadataSpawn { cause: "cargo was not found".to_owned() }, 3),
        (Error::CargoMetadataTimeout { timeout: 300 }, 3),
        (Error::CargoMetadataRead { cause: "pipe closed".to_owned() }, 3),
        (Error::CargoMetadataFailed { status: Some(101) }, 3),
        (Error::CargoMetadataUnparseable { cause: "EOF while parsing".to_owned() }, 3),
        (
            Error::MetadataRead {
                path: "metadata.json".to_owned(),
                cause: "missing".to_owned(),
            },
            3,
        ),
        (Error::MetadataInvalid { message: "resolve is null".to_owned() }, 3),
        (Error::ManifestRead { path: "Cargo.toml".to_owned(), cause: "missing".to_owned() }, 3),
        (Error::ManifestParse { path: "Cargo.toml".to_owned(), cause: "line 1".to_owned() }, 3),
        (Error::ReportWrite { cause: "disk full".to_owned() }, 4),
    ]
}

#[test]
fn timeout_message_names_the_flag_and_the_whole_seconds() {
    let error = Error::CargoMetadataTimeout { timeout: 1 };

    assert_eq!(error.describe(), "cargo metadata exceeded --cargo-timeout=1s");
}

#[test]
fn every_error_variant_maps_to_its_contract_exit_code() {
    for (error, expected_exit_code) in error_cases() {
        assert_eq!(error.exit_code(), expected_exit_code, "unexpected mapping for {error:?}");
    }
}

#[test]
fn successful_result_maps_to_zero() {
    assert_eq!(exit_code_for(&Ok(())), 0);
}

#[test]
fn every_error_result_maps_to_its_error_exit_code() {
    for (error, expected_exit_code) in error_cases() {
        assert_eq!(exit_code_for(&Err(error)), expected_exit_code, "unexpected result mapping");
    }
}
