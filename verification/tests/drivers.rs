use bare_rt::irq::{Irq, IRQ_COUNT, SGI_COUNT, SPI_COUNT};
use bare_rt::prim::{abs_bits, signum_bits, FloatExtra};
use bare_rt::touch::{decode, Point, Touch, HEIGHT, INVALID_POINTS, MAX_POINTS, WIDTH};
use bare_rt::uart::{Uart, BAUD, CLOCK};

struct Wrapped(f32);

impl FloatExtra for Wrapped {
    fn sqrt(self) -> Self {
        Wrapped(self.0.sqrt())
    }

    fn signum(self) -> Self {
        Wrapped(f32::from_bits(signum_bits(self.0.to_bits())))
    }

    fn abs(self) -> Self {
        Wrapped(f32::from_bits(abs_bits(self.0.to_bits())))
    }
}

#[test]
fn float_bits_give_sign_and_absolute() {
    assert_eq!(Wrapped(-2.5).signum().0, -1.0);
    assert_eq!(Wrapped(2.5).signum().0, 1.0);
    assert_eq!(Wrapped(0.0).signum().0, 1.0);
    assert_eq!(Wrapped(-0.0).signum().0, -1.0);
    assert_eq!(Wrapped(-2.5).abs().0, 2.5);
    assert_eq!(Wrapped(2.5).abs().0, 2.5);
    assert_eq!(Wrapped(9.0).sqrt().0, 3.0);
    assert_eq!(signum_bits(0x80000000), 0xBF800000);
    assert_eq!(signum_bits(0x7FFFFFFF), 0x3F800000);
    assert_eq!(abs_bits(0xC0200000), 0x40200000);
}

#[test]
fn irq_register_gives_register_and_bit() {
    let mut irq: Irq<fn()> = Irq::new();
    fn nothing() {}
    assert!(!irq.is_registered(142));
    assert_eq!(irq.register(142, nothing), (4, 1 << 14));
    assert!(irq.is_registered(142));
    assert_eq!(irq.register(0, nothing), (0, 1));
    assert_eq!(irq.register(223, nothing), (6, 1 << 31));
    assert_eq!(IRQ_COUNT, SPI_COUNT + 32);
    assert_eq!(SGI_COUNT, 16);
}

#[test]
fn irq_values_for_software_generated_interrupts() {
    assert_eq!(Irq::<fn()>::notify_all(1), 0xFF8001);
    assert_eq!(Irq::<fn()>::notify_others(0), 0x1008000);
    assert_eq!(Irq::<fn()>::notify_self(15), 0x200800F);
}

#[test]
fn irq_pending_strips_the_sender() {
    assert_eq!(Irq::<fn()>::pending(0x0000_0C01), Some(1));
    assert_eq!(Irq::<fn()>::pending(142), Some(142));
    assert_eq!(Irq::<fn()>::pending(223), Some(223));
    assert_eq!(Irq::<fn()>::pending(224), None);
    assert_eq!(Irq::<fn()>::pending(1023), None);
}

#[test]
fn irq_dispatch_calls_the_handler() {
    let count = std::cell::Cell::new(0u32);
    let bump = || count.set(count.get() + 1);
    let mut irq = Irq::new();
    irq.register(1, &bump);
    irq.dispatch(1);
    irq.dispatch(1);
    assert_eq!(count.get(), 2);
}

fn points(list: &[(u16, u16)]) -> Vec<Point> {
    let mut points = vec![Point { x_msb: 0, x_lsb: 0, y_msb: 0, y_lsb: 0 }; MAX_POINTS];
    for (i, &(x, y)) in list.iter().enumerate() {
        points[i] = Point {
            // bits above the second of the high bytes are not part of the coordinate
            x_msb: (x >> 8) as u8 | 0x80,
            x_lsb: x as u8,
            y_msb: (y >> 8) as u8 | 0x40,
            y_lsb: y as u8,
        };
    }
    points
}

#[test]
fn touch_decodes_ten_bit_coordinates() {
    assert_eq!(decode(0x00, 0x00), 0);
    assert_eq!(decode(0x03, 0xFF), 1023);
    assert_eq!(decode(0xFE, 0x20), 0x220);
    assert_eq!((WIDTH, HEIGHT), (800, 480));
}

#[test]
fn touch_keeps_up_to_two_points() {
    let mut touch = Touch::new();
    assert_eq!(touch.saved(), [None, None]);
    assert!(touch.poll(1, &points(&[(300, 100)])));
    assert_eq!(touch.saved(), [Some((300, 380)), None]);
    assert!(touch.poll(2, &points(&[(799, 0), (0, 480)])));
    assert_eq!(touch.saved(), [Some((799, 480)), Some((0, 0))]);
    // a buffer that was not filled leaves the saved points
    assert!(!touch.poll(INVALID_POINTS, &points(&[(1, 1)])));
    assert_eq!(touch.saved(), [Some((799, 480)), Some((0, 0))]);
    // three points are too many
    assert!(touch.poll(3, &points(&[(1, 1), (2, 2), (3, 3)])));
    assert_eq!(touch.saved(), [None, None]);
    assert!(touch.poll(1, &points(&[(5, 5)])));
    assert!(touch.poll(0, &points(&[])));
    assert_eq!(touch.saved(), [None, None]);
}

#[test]
fn uart_settings() {
    let _ = Uart::new();
    assert_eq!(Uart::baud_divisor(CLOCK, BAUD), 541);
    assert_eq!(Uart::select_alt5(0xFFFF_FFFF), 0xFFFD_2FFF);
    assert_eq!(Uart::select_alt5(0), 0x12000);
    assert_eq!(Uart::no_pull(0xABCD_EF01), 0x00CD_EF01);
    assert!(Uart::is_full(0x20));
    assert!(Uart::is_full(0xFF));
    assert!(!Uart::is_full(0xDF));
}

#[test]
fn touch_reads_only_the_points_that_it_keeps() {
    let mut touch = Touch::new();
    // the second point lies beyond the sensor, but only one point is there
    assert!(touch.poll(1, &points(&[(10, 20), (0, 1023)])));
    assert_eq!(touch.saved(), [Some((10, 460)), None]);
    // with more than two points none is read
    assert!(touch.poll(5, &points(&[(0, 1023), (0, 1023), (0, 1023)])));
    assert_eq!(touch.saved(), [None, None]);
}
