use raindeer::color::RDColor;

#[test]
fn to_u32_packs_red_lowest() {
    assert_eq!(RDColor::new(0x12, 0x34, 0x56, 0x78).to_u32(), 0x7856_3412);
    assert_eq!(RDColor::new(255, 0, 0, 0).to_u32(), 0x0000_00ff);
    assert_eq!(RDColor::new(0, 255, 0, 0).to_u32(), 0x0000_ff00);
    assert_eq!(RDColor::new(0, 0, 255, 0).to_u32(), 0x00ff_0000);
    assert_eq!(RDColor::new(0, 0, 0, 255).to_u32(), 0xff00_0000);
}

#[test]
fn named_colors_have_their_channels() {
    assert_eq!(RDColor::red(), RDColor::new(255, 0, 0, 255));
    assert_eq!(RDColor::green(), RDColor::new(0, 255, 0, 255));
    assert_eq!(RDColor::blue(), RDColor::new(0, 0, 255, 255));
    assert_eq!(RDColor::yellow(), RDColor::new(255, 255, 0, 255));
    assert_eq!(RDColor::magenta(), RDColor::new(255, 0, 255, 255));
    assert_eq!(RDColor::cyan(), RDColor::new(0, 255, 255, 255));
    assert_eq!(RDColor::black(), RDColor::new(0, 0, 0, 255));
    assert_eq!(RDColor::white(), RDColor::new(255, 255, 255, 255));
    assert_eq!(RDColor::transparent(), RDColor::new(0, 0, 0, 0));
    assert_eq!(RDColor::white().to_u32(), 0xffff_ffff);
    assert_eq!(RDColor::transparent().to_u32(), 0);
}

#[test]
fn new_keeps_the_channels() {
    let c = RDColor::new(1, 2, 3, 4);
    assert_eq!((c.r, c.g, c.b, c.a), (1, 2, 3, 4));
}
