use geo::image::Image;

#[test]
fn rgb_image_is_black_and_sized() {
    let img = Image::rgb(4, 3);
    assert_eq!(img.data().len(), 36);
    assert!(img.data().iter().all(|&b| b == 0));
    let g = Image::grayscale(5, 2);
    assert_eq!(g.data().len(), 10);
    assert!(g.data().iter().all(|&b| b == 0));
    assert!(Image::rgb(0, 7).data().is_empty());
}

#[test]
fn pixels_mut_walks_rows_and_writes_through() {
    let mut img = Image::rgb(3, 2);
    {
        let pixels = img.pixels_mut();
        let coords: Vec<(u32, u32)> = pixels.iter().map(|(x, y, _)| (*x, *y)).collect();
        assert_eq!(coords, vec![(0, 0), (1, 0), (2, 0), (0, 1), (1, 1), (2, 1)]);
        for (x, y, p) in pixels {
            assert_eq!(p.len(), 3);
            p[0] = x as u8;
            p[1] = y as u8;
            p[2] = 9;
        }
    }
    assert_eq!(
        img.data(),
        &[0, 0, 9, 1, 0, 9, 2, 0, 9, 0, 1, 9, 1, 1, 9, 2, 1, 9][..]
    );
}

#[test]
fn data_mut_changes_data_only() {
    let mut img = Image::grayscale(2, 2);
    img.data_mut()[3] = 200;
    img.data_mut().push(7);
    assert_eq!(img.data(), &[0, 0, 0, 200, 7][..]);
    // the extra byte is not a whole pixel of a 3-channel image
    let mut rgb = Image::rgb(1, 1);
    rgb.data_mut().push(1);
    assert_eq!(rgb.pixels_mut().len(), 1);
    assert_eq!(rgb.data(), &[0, 0, 0, 1][..]);
}

#[test]
fn netpbm_bytes_have_header_then_data() {
    let mut img = Image::rgb(2, 1);
    img.data_mut()[0] = 255;
    let mut expected = b"P6\n2 1\n255\n".to_vec();
    expected.extend_from_slice(&[255, 0, 0, 0, 0, 0]);
    assert_eq!(img.netpbm_bytes(), expected);

    let g = Image::grayscale(10, 12);
    let bytes = g.netpbm_bytes();
    assert!(bytes.starts_with(b"P5\n10 12\n255\n"));
    assert_eq!(bytes.len(), 13 + 120);

    assert!(Image::<3>::has_netpbm_extension(b"out.ppm"));
    assert!(!Image::<3>::has_netpbm_extension(b"out.pgm"));
    assert!(Image::<1>::has_netpbm_extension(b"out.pgm"));
    assert!(!Image::<1>::has_netpbm_extension(b"out.png"));
    assert!(!Image::<1>::has_netpbm_extension(b"pgm"));
}

#[test]
fn pixels_mut_writes_land_row_major() {
    let (w, h) = (3u32, 2u32);
    let f = |x: u32, y: u32, k: usize| (x * 50 + y * 7 + k as u32) as u8;
    let mut img = Image::<3>::rgb(w, h);
    for (x, y, p) in img.pixels_mut() {
        for k in 0..3 {
            p[k] = f(x, y, k);
        }
    }
    assert_eq!(img.data().len(), (w * h * 3) as usize);
    for y in 0..h {
        for x in 0..w {
            for k in 0..3 {
                assert_eq!(img.data()[((y * w + x) as usize) * 3 + k], f(x, y, k));
            }
        }
    }
}
