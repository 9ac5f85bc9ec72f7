use apogee::aero::{two_digit_year_and_doy, SpaceWeatherData};
use apogee::celestial::{CelestialKind, NaifIdComponent};
use apogee::ephemeris::body_descriptors;
use apogee::frames::{Frame, NutationPrecessionModel};
use apogee::ApogeeError;

#[test]
fn celestial_kind_defaults_to_kinematic() {
    assert_eq!(CelestialKind::default(), CelestialKind::Kinematic);
    assert!(CelestialKind::Kinematic.is_kinematic());
    assert!(!CelestialKind::Kinematic.is_dynamic());
    assert!(CelestialKind::Dynamic.is_dynamic());
    assert!(!CelestialKind::Dynamic.is_kinematic());
}

#[test]
fn naif_id_component_round_trip() {
    let c = NaifIdComponent::new(399);
    assert_eq!(c.id(), 399);
    assert_eq!(NaifIdComponent::default().id(), 0);
}

#[test]
fn body_descriptors_sorted_and_deduplicated() {
    let bodies = body_descriptors(&[(499, 4), (10, 0), (499, 10), (-82, 399), (10, 7)]);
    let ids: Vec<i32> = bodies.iter().map(|b| b.naif_id).collect();
    assert_eq!(ids, vec![-82, 10, 499]);
    assert_eq!(bodies[0].name, "NAIF -82");
    assert_eq!(bodies[0].center, 399);
    assert_eq!(bodies[1].center, 0);
    assert_eq!(bodies[2].name, "NAIF 499");
    assert_eq!(bodies[2].center, 4);
    assert!(body_descriptors(&[]).is_empty());
}

#[test]
fn hwm_year_day_and_misc() {
    assert_eq!(two_digit_year_and_doy(323), 93323);
    assert_eq!(two_digit_year_and_doy(0), 93000);
    assert!(SpaceWeatherData::load("no/such/file").is_ok());
    assert_eq!(Frame::BodyFixed(3), Frame::BodyFixed(3));
    let _ = NutationPrecessionModel::new();
}

#[test]
fn error_messages() {
    assert_eq!(ApogeeError::Data("x".to_string()).message(), "data error: x");
    assert_eq!(ApogeeError::Frame("f".to_string()).message(), "frame transform error: f");
    assert_eq!(ApogeeError::Gravity("g".to_string()).message(), "gravity model error: g");
    assert_eq!(ApogeeError::Integrator("i".to_string()).message(), "integrator error: i");
    assert_eq!(ApogeeError::Network("n".to_string()).message(), "network error: n");
    let io = ApogeeError::Io(std::io::Error::new(std::io::ErrorKind::Other, "disk"));
    assert_eq!(io.message(), "I/O error: disk");
}

#[test]
fn io_errors_convert_into_apogee_errors() {
    let e: ApogeeError = std::io::Error::new(std::io::ErrorKind::NotFound, "gone").into();
    match e {
        ApogeeError::Io(inner) => assert_eq!(inner.kind(), std::io::ErrorKind::NotFound),
        other => panic!("unexpected {:?}", other),
    }
}
