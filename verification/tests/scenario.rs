use fractal::ast::{BinOp, Expr, ExprKind};
use fractal::error::Error;
use fractal::eval::Slot;
use fractal::lex::{tokenize, Literal};
use fractal::parser::parse;
use fractal::render::{assemble, coordinates, partition, plan, Chunk};
use num_complex::Complex;

#[derive(Clone, Copy, Debug, PartialEq)]
struct Dual {
    v: Complex<f64>,
    d: Complex<f64>,
}

struct Slots {
    width: f64,
    height: f64,
    x: f64,
    y: f64,
    c: Dual,
    z: Dual,
}

fn constant(v: Complex<f64>) -> Dual {
    Dual { v, d: Complex::new(0.0, 0.0) }
}

fn number(literal: &Literal) -> f64 {
    String::from_utf8(literal.text.clone()).unwrap().parse::<f64>().unwrap()
}

fn evaluate(slots: &Slots, expr: &Expr) -> Result<Dual, Error> {
    match &expr.kind {
        ExprKind::Bin(op, left, right) => {
            let a = evaluate(slots, left)?;
            let b = evaluate(slots, right)?;
            match op {
                BinOp::Add => Ok(Dual { v: a.v + b.v, d: a.d + b.d }),
                BinOp::Sub => Ok(Dual { v: a.v - b.v, d: a.d - b.d }),
                BinOp::Mul => Ok(Dual { v: a.v * b.v, d: a.v * b.d + b.v * a.d }),
                BinOp::Div => {
                    if b.v == Complex::new(0.0, 0.0) {
                        return Err(Error { message: "divide by zero", position: expr.position });
                    }
                    Ok(Dual { v: a.v / b.v, d: (a.d * b.v - b.d * a.v) / (b.v * b.v) })
                }
            }
        }
        ExprKind::Var(name) => match Slot::from_name(*name) {
            Some(Slot::Width) => Ok(constant(slots.width.into())),
            Some(Slot::Height) => Ok(constant(slots.height.into())),
            Some(Slot::X) => Ok(constant(slots.x.into())),
            Some(Slot::Y) => Ok(constant(slots.y.into())),
            Some(Slot::C) => Ok(slots.c),
            Some(Slot::Z) => Ok(slots.z),
            None => Err(Error { message: "undefined variable", position: expr.position }),
        },
        ExprKind::Real(literal) => Ok(constant(Complex::new(number(literal), 0.0))),
        ExprKind::Imag(literal) => Ok(constant(Complex::new(0.0, number(literal)))),
    }
}

fn pixel(init: &Expr, first: &Expr, iter: &Expr, at: (u32, u32), size: (u32, u32)) -> Result<u8, Error> {
    let zero = constant(Complex::new(0.0, 0.0));
    let mut slots = Slots {
        width: size.0 as f64,
        height: size.1 as f64,
        x: at.0 as f64,
        y: at.1 as f64,
        c: zero,
        z: zero,
    };
    let mut c = evaluate(&slots, init)?;
    c.d = Complex::new(1.0, 0.0);
    slots.c = c;
    let mut z = evaluate(&slots, first)?;
    for _ in 0..200 {
        slots.z = z;
        z = evaluate(&slots, iter)?;
        if z.v.norm() >= 2.0 {
            break;
        }
    }
    let (r, dr) = (z.v.norm(), z.d.norm());
    let distance = size.0 as f64 * 0.7 * r.ln() * r / dr;
    Ok((255.0 * distance).floor() as u8)
}

fn formula(text: &str) -> Expr {
    parse(&tokenize(text).unwrap()).unwrap()
}

fn work(formulas: &(Expr, Expr, Expr), chunk: &Chunk, size: (u32, u32)) -> Result<Vec<u8>, Error> {
    let mut pixels = Vec::new();
    for index in chunk.start..chunk.start + chunk.length {
        let at = coordinates(index, size.0, size.1);
        pixels.push(pixel(&formulas.0, &formulas.1, &formulas.2, at, size)?);
    }
    Ok(pixels)
}

fn render(formulas: &(Expr, Expr, Expr), chunks: &[Chunk], size: (u32, u32)) -> Result<Vec<u8>, Error> {
    assemble(chunks.iter().map(|chunk| work(formulas, chunk, size)).collect())
}

#[test]
fn two_by_two_image_is_visited_in_row_major_order() {
    let mut visited = Vec::new();
    for chunk in plan(2, 2) {
        for index in chunk.start..chunk.start + chunk.length {
            visited.push(coordinates(index, 2, 2));
        }
    }
    assert_eq!(visited, vec![(0, 0), (1, 0), (0, 1), (1, 1)]);
}

#[test]
fn two_by_two_image_renders_to_four_pixels() {
    let formulas = (formula("c"), formula("c"), formula("z*z + c"));
    let pixels = render(&formulas, &plan(2, 2), (2, 2)).unwrap();
    assert_eq!(pixels.len(), 4);
    let whole = render(&formulas, &[Chunk { start: 0, length: 4 }], (2, 2)).unwrap();
    assert_eq!(pixels, whole);
}

#[test]
fn mandelbrot_view_renders_the_same_for_any_number_of_workers() {
    let formulas = (
        formula("(x/w - 0.7) * 3 + (y/h - 0.5) * 3i"),
        formula("0"),
        formula("z*z + c"),
    );
    let size = (12, 9);
    let whole = render(&formulas, &[Chunk { start: 0, length: 108 }], size).unwrap();
    assert_eq!(whole.len(), 108);
    assert!(whole.iter().any(|shade| *shade != whole[0]));
    for workers in 1..9u64 {
        let pixels = render(&formulas, &partition(108, workers), size).unwrap();
        assert_eq!(pixels, whole);
    }
}

#[test]
fn division_by_zero_in_a_pixel_fails_the_render() {
    let formulas = (formula("c"), formula("1/(x - 1)"), formula("z"));
    let e = render(&formulas, &partition(4, 2), (2, 2)).unwrap_err();
    assert_eq!(e.message, "divide by zero");
    assert_eq!(e.position, 9);
    let single = render(&formulas, &partition(4, 1), (2, 2)).unwrap_err();
    assert_eq!(single, e);
}

#[test]
fn parsed_source_has_no_undefined_variable() {
    for text in ["w+h+x+y+c+z", "z*z + c", "-(w - x) / (h - y) * 2.5i"] {
        let expr = formula(text);
        let zero = constant(Complex::new(0.0, 0.0));
        let slots = Slots { width: 7.0, height: 5.0, x: 1.0, y: 2.0, c: zero, z: zero };
        match evaluate(&slots, &expr) {
            Ok(_) => {}
            Err(e) => assert_eq!(e.message, "divide by zero"),
        }
    }
}
