use noyalib::compat::serde_yaml;
use noyalib::error::{Error, Location};

#[test]
fn error_type_re_export_is_noyalib_error() {
    // `serde_yaml::Error` and `noyalib::error::Error` are the same type.
    #[allow(unused_qualifications)]
    fn _identity(e: serde_yaml::Error) -> Error {
        e
    }
    fn _location(l: serde_yaml::Location) -> Location {
        l
    }
}
