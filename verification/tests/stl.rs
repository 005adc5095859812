use img2stl::stl::{parse_stl, triangles_to_stl_writer, write_2d_triangle, write_triangle};

fn bits(values: &[f32]) -> Vec<u32> {
    values.iter().map(|v| v.to_bits()).collect()
}

#[test]
fn test_chunks() {
    let data = vec![1, 1, 2, -2, 6, 0, 3, 1];
    let r: Vec<Vec<&i32>> = data.chunks(3).map(|c| c.iter().collect::<Vec<&i32>>()).collect();
    assert_eq!(r.len(), 3);
}

#[test]
fn test_write_stl_2d() {
    let tris: Vec<f64> = vec![0., 0., 10., 0., 10., 10.];
    let mut file: Vec<u8> = vec![0; 80];
    let count: u32 = (tris.len() as u32) / 6;
    file.extend_from_slice(&count.to_le_bytes());
    for tri in tris.chunks(6) {
        let narrow: Vec<f32> = tri.iter().map(|v| *v as f32).collect();
        write_2d_triangle(&mut file, &bits(&narrow), (0.0f32).to_bits());
    }
    assert_eq!(file.len(), 84 + 50);
    let back = parse_stl(&file).unwrap();
    assert_eq!(back, bits(&[0., 0., 0., 10., 0., 0., 10., 10., 0.]));
}

#[test]
fn triangle_record_is_fifty_bytes() {
    let tri = bits(&[1.0, 2.0, 3.0, 4.0, 5.0, 6.0, 7.0, 8.0, 9.0]);
    let mut w: Vec<u8> = vec![0xaa];
    write_triangle(&mut w, &tri);
    assert_eq!(w.len(), 51);
    assert_eq!(w[0], 0xaa);
    assert!(w[1..13].iter().all(|b| *b == 0));
    for (k, v) in [1.0f32, 2.0, 3.0, 4.0, 5.0, 6.0, 7.0, 8.0, 9.0].iter().enumerate() {
        assert_eq!(&w[13 + 4 * k..17 + 4 * k], &v.to_le_bytes());
    }
    assert_eq!(&w[49..51], &[0, 0]);
}

#[test]
fn stl_file_layout() {
    let tris = bits(&[
        0.0, 0.0, 0.0, 1.0, 0.0, 0.0, 0.0, 1.0, 0.0, //
        -1.5, 2.25, 1e-3, 3.0e8, -0.0, 7.0, 1.0, 1.0, 1.0,
    ]);
    let mut file: Vec<u8> = vec![];
    triangles_to_stl_writer(&mut file, &tris);
    assert_eq!(file.len(), 80 + 4 + 2 * 50);
    assert!(file[..80].iter().all(|b| *b == 0));
    assert_eq!(&file[80..84], &[2, 0, 0, 0]);
    // the first coordinate of the second triangle: -1.5 is bf c0 00 00, lowest byte first
    assert_eq!(&file[84 + 50 + 12..84 + 50 + 16], &[0x00, 0x00, 0xc0, 0xbf]);
}

#[test]
fn stl_round_trip() {
    let tris = bits(&[
        0.0, 0.0, 0.0, 1.0, 0.0, 0.0, 0.0, 1.0, 0.0, //
        -1.5, 2.25, 1e-3, 3.0e8, -0.0, 7.0, 1.0, 1.0, 1.0, //
        f32::MAX, f32::MIN, f32::EPSILON, 0.1, 0.2, 0.3, 4.0, 5.0, 6.0,
    ]);
    let mut file: Vec<u8> = vec![];
    triangles_to_stl_writer(&mut file, &tris);
    assert_eq!(parse_stl(&file), Some(tris));
    let mut empty: Vec<u8> = vec![];
    triangles_to_stl_writer(&mut empty, &vec![]);
    assert_eq!(empty.len(), 84);
    assert_eq!(parse_stl(&empty), Some(vec![]));
}

#[test]
fn parse_refuses_a_file_of_the_wrong_length() {
    let mut file: Vec<u8> = vec![];
    triangles_to_stl_writer(&mut file, &bits(&[0.0; 9]));
    file.pop();
    assert_eq!(parse_stl(&file), None);
    assert_eq!(parse_stl(&vec![0; 83]), None);
    let mut long = vec![0; 84];
    long[80] = 1;
    assert_eq!(parse_stl(&long), None);
}
