const AU: f32 = 149_597_870.7;
const C_LIGHT: f32 = 299_792.458;
const TARGET: f32 = 59.88;

#[test]
fn analytic_solution() {
    let t = 40.0 * AU * (1.0 - 0.997) / C_LIGHT;
    assert!((t - TARGET).abs() < 1.0, "t={t} should be ~59.88");
}
