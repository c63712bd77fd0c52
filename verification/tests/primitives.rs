use memegeom::boundary::{both_include, Boundary};
use memegeom::point::{pti, PtI};
use memegeom::rect::RtI;

#[test]
fn pti_new_and_fields() {
    let p = PtI::new(3, -4);
    assert_eq!(p.x, 3);
    assert_eq!(p.y, -4);
    let q = pti(7, 9);
    assert_eq!(q.x, 7);
    assert_eq!(q.y, 9);
}

#[test]
fn pti_zero_and_is_zero() {
    let z = PtI::zero();
    assert_eq!(z.x, 0);
    assert_eq!(z.y, 0);
    assert!(z.is_zero());
    assert!(!pti(1, 0).is_zero());
    assert!(!pti(0, -1).is_zero());
}

#[test]
fn pti_mag2() {
    assert_eq!(pti(3, 4).mag2(), 25);
    assert_eq!(pti(-3, 4).mag2(), 25);
    assert_eq!(pti(0, 0).mag2(), 0);
    assert_eq!(pti(-5, -12).mag2(), 169);
}

#[test]
fn rti_new_and_getters() {
    let r = RtI::new(1, 2, 10, 20);
    assert_eq!(r.l(), 1);
    assert_eq!(r.b(), 2);
    assert_eq!(r.w(), 10);
    assert_eq!(r.h(), 20);
    assert_eq!(r.r(), 11);
    assert_eq!(r.t(), 22);
}

#[test]
fn rti_corners() {
    let r = RtI::new(-2, 3, 4, 5);
    assert_eq!(r.bl(), pti(-2, 3));
    assert_eq!(r.br(), pti(2, 3));
    assert_eq!(r.tl(), pti(-2, 8));
    assert_eq!(r.tr(), pti(2, 8));
}

#[test]
fn rti_enclosing() {
    let r = RtI::new(0, 0, 0, 0);
    assert_eq!(r.w(), 0);

    let e = RtI::enclosing(pti(5, 1), pti(1, 2));
    assert_eq!(e.l(), 1);
    assert_eq!(e.b(), 1);
    assert_eq!(e.r(), 5);
    assert_eq!(e.t(), 2);

    let one = RtI::enclosing(pti(-3, -3), pti(-3, -3));
    assert_eq!(one.w(), 0);
    assert_eq!(one.h(), 0);
    assert_eq!(one.l(), -3);
}

#[test]
fn rti_inset() {
    let r = RtI::new(0, 0, 10, 8).inset(2, 3);
    assert_eq!(r.l(), 2);
    assert_eq!(r.b(), 3);
    assert_eq!(r.w(), 6);
    assert_eq!(r.h(), 2);
}

#[test]
fn rti_inset_past_size_leaves_centre() {
    let r = RtI::new(0, 0, 4, 4).inset(3, 3);
    assert_eq!(r.l(), 2);
    assert_eq!(r.b(), 2);
    assert_eq!(r.w(), 0);
    assert_eq!(r.h(), 0);
}

#[test]
fn rti_inset_negative_grows() {
    let r = RtI::new(0, 0, 2, 2).inset(-1, -1);
    assert_eq!(r.l(), -1);
    assert_eq!(r.b(), -1);
    assert_eq!(r.w(), 4);
    assert_eq!(r.h(), 4);
}

#[test]
fn boundary_both_include() {
    assert!(both_include(Boundary::Include, Boundary::Include));
    assert!(!both_include(Boundary::Include, Boundary::Exclude));
    assert!(!both_include(Boundary::Exclude, Boundary::Include));
    assert!(!both_include(Boundary::Exclude, Boundary::Exclude));
    assert_eq!(Boundary::default(), Boundary::Include);
}
