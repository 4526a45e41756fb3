use wood_cutter::algo_id::AlgoId;
use wood_cutter::parse::{parse_kerf, parse_length, parse_nonneg_length, parse_positive_length};
use wood_cutter::shape_entry::ShapeEntry;
use wood_cutter::stat_cell::StatCell;

const ALL: [AlgoId; 7] = [
    AlgoId::MaxRects,
    AlgoId::Guillotine,
    AlgoId::BottomLeft,
    AlgoId::NfpGreedy,
    AlgoId::SA,
    AlgoId::GA,
    AlgoId::SVGNest,
];

#[test]
fn algo_labels() {
    let labels: Vec<&str> = ALL.iter().map(|a| a.label()).collect();
    assert_eq!(
        labels,
        vec![
            "MaxRects 最大矩形",
            "Guillotine 断头台",
            "Bottom-Left 天际线",
            "NFP 临界多边形贪心",
            "SA 模拟退火",
            "GA 遗传算法",
            "SVGNest 算法"
        ]
    );
}

#[test]
fn algo_short_names() {
    let shorts: Vec<&str> = ALL.iter().map(|a| a.short()).collect();
    assert_eq!(shorts, vec!["MaxRects", "Guillotine", "Bottom-Left", "NFP贪心", "模拟退火SA", "遗传算法GA", "SVGNest"]);
}

#[test]
fn algo_badges() {
    let badges: Vec<&str> = ALL.iter().map(|a| a.badge()).collect();
    assert_eq!(
        badges,
        vec!["通用/快速", "通用/快速", "通用/快速", "极限利用率", "中等规模优化", "大规模搜索", "复杂图形约束"]
    );
}

#[test]
fn algo_descriptions() {
    assert_eq!(AlgoId::MaxRects.desc(), "BSSF贪心，维护所有自由矩形，工业级标准算法");
    assert_eq!(AlgoId::Guillotine.desc(), "模拟锯切，每刀产生两个矩形区域，贴近实际切割");
    assert_eq!(AlgoId::BottomLeft.desc(), "图形靠左下紧凑放置，维护天际线高度图");
    assert_eq!(AlgoId::NfpGreedy.desc(), "精确计算No-Fit Polygon边界，从所有接触点选最优");
    assert_eq!(AlgoId::SA.desc(), "以概率接受较差解跳出局部最优，在MaxRects基础上搜索更优排列");
    assert_eq!(AlgoId::GA.desc(), "OX交叉+精英保留，使用MaxRects评估适应度，搜索全局最优排列");
    assert_eq!(AlgoId::SVGNest.desc(), "GA进化顺序 + NFP精确接触定位 + 最低重心评分");
}

#[test]
fn algo_parameters() {
    let meta: Vec<bool> = ALL.iter().map(|a| a.has_meta()).collect();
    assert_eq!(meta, vec![false, false, false, false, true, true, true]);
    assert_eq!(AlgoId::SA.p1_label(), "初始温度");
    assert_eq!(AlgoId::GA.p1_label(), "种群大小");
    assert_eq!(AlgoId::MaxRects.p1_label(), "种群大小");
    assert_eq!(AlgoId::SA.p2_label(), "迭代步数");
    assert_eq!(AlgoId::SVGNest.p2_label(), "进化代数");
    let p1: Vec<u32> = ALL.iter().map(|a| a.default_p1()).collect();
    assert_eq!(p1, vec![20, 20, 20, 20, 1000, 30, 20]);
    let p2: Vec<u32> = ALL.iter().map(|a| a.default_p2()).collect();
    assert_eq!(p2, vec![80, 80, 80, 80, 500, 100, 60]);
}

#[test]
fn lengths_read_as_thousandths() {
    assert_eq!(parse_length("2440"), Some(2_440_000));
    assert_eq!(parse_length("12.5"), Some(12_500));
    assert_eq!(parse_length("+.5"), Some(500));
    assert_eq!(parse_length("5."), Some(5_000));
    assert_eq!(parse_length("0.001"), Some(1));
    assert_eq!(parse_length("0.0005"), Some(1));
    assert_eq!(parse_length("1.23449"), Some(1_234));
    assert_eq!(parse_length("1.2345"), Some(1_235));
    assert_eq!(parse_length("007"), Some(7_000));
    assert_eq!(parse_length("2147483.648"), Some(2_147_483_648));
}

#[test]
fn lengths_too_long_for_any_board_read_as_too_long() {
    let too_long: i64 = 2_147_483_649;
    assert_eq!(parse_length("2147483.649"), Some(too_long));
    assert_eq!(parse_length("3000000"), Some(too_long));
    assert_eq!(parse_length("99999999999999999999"), Some(too_long));
    assert_eq!(parse_length("1e400"), Some(too_long));
    assert_eq!(parse_length("inf"), Some(too_long));
    assert_eq!(parse_length("+Infinity"), Some(too_long));
    assert_eq!(parse_length("INF"), Some(too_long));
    assert_eq!(parse_length("-inf"), None);
    assert_eq!(parse_length("infin"), None);
    assert_eq!(parse_nonneg_length("inf"), Some(too_long));
    assert_eq!(parse_kerf("3000000"), 2_147_483_648);
    assert_eq!(parse_kerf("inf"), 2_147_483_648);
    assert_eq!(parse_positive_length("3000000", "木板长度"), Ok(too_long));
}

#[test]
fn lengths_with_exponents_and_tiny_values() {
    assert_eq!(parse_length("1e3"), Some(1_000_000));
    assert_eq!(parse_length("1E3"), Some(1_000_000));
    assert_eq!(parse_length("2.5e2"), Some(250_000));
    assert_eq!(parse_length("1.e1"), Some(10_000));
    assert_eq!(parse_length(".5E+1"), Some(5_000));
    assert_eq!(parse_length("12345e-4"), Some(1_235));
    assert_eq!(parse_length("1e-3"), Some(1));
    assert_eq!(parse_length("0.0004"), Some(1));
    assert_eq!(parse_length("4e-10"), Some(1));
    assert_eq!(parse_length("1e-400"), Some(1));
    assert_eq!(parse_length("0.0000e99999999999999999999"), None);
    assert_eq!(parse_length("2.147483648e6"), Some(2_147_483_648));
    assert_eq!(parse_length("2.147483649e6"), Some(2_147_483_649));
    assert_eq!(parse_nonneg_length("0e-7"), Some(0));
    assert_eq!(parse_kerf("3e0"), 3_000);
}

#[test]
fn lengths_refused() {
    assert_eq!(parse_length(""), None);
    assert_eq!(parse_length("."), None);
    assert_eq!(parse_length("+"), None);
    assert_eq!(parse_length("-3"), None);
    assert_eq!(parse_length("0"), None);
    assert_eq!(parse_length("abc"), None);
    assert_eq!(parse_length("1.2.3"), None);
    assert_eq!(parse_length(" 5"), None);
    assert_eq!(parse_length("NaN"), None);
    assert_eq!(parse_length("1e"), None);
    assert_eq!(parse_length("e3"), None);
    assert_eq!(parse_length("1e+"), None);
    assert_eq!(parse_length("0e5"), None);
    assert_eq!(parse_length("-1e-3"), None);
}

#[test]
fn nonneg_lengths_and_kerf() {
    assert_eq!(parse_nonneg_length("0"), Some(0));
    assert_eq!(parse_nonneg_length("-0"), Some(0));
    assert_eq!(parse_nonneg_length("-0.1"), None);
    assert_eq!(parse_kerf("3"), 3_000);
    assert_eq!(parse_kerf("0.5"), 500);
    assert_eq!(parse_kerf("x"), 0);
    assert_eq!(parse_kerf("-1"), 0);
}

#[test]
fn positive_length_errors_name_the_field() {
    assert_eq!(parse_positive_length("1220", "木板宽度"), Ok(1_220_000));
    assert_eq!(parse_positive_length("", "木板长度"), Err("请输入有效木板长度".to_string()));
    assert_eq!(parse_positive_length("-5", "木板宽度"), Err("请输入有效木板宽度".to_string()));
}

#[test]
fn shape_entry_to_shape() {
    let e = ShapeEntry { id: 7, name: "门板A".to_string(), w: "800".to_string(), h: "2000.5".to_string() };
    let s = e.to_shape(3).unwrap();
    assert_eq!((s.id, s.name.as_str(), s.w, s.h, s.color_idx), (7, "门板A", 800_000, 2_000_500, 3));
    let bad_w = ShapeEntry { id: 1, name: "a".to_string(), w: "0".to_string(), h: "10".to_string() };
    assert!(bad_w.to_shape(0).is_none());
    let bad_h = ShapeEntry { id: 1, name: "a".to_string(), w: "10".to_string(), h: "x".to_string() };
    assert!(bad_h.to_shape(0).is_none());
    let sci = ShapeEntry { id: 2, name: "b".to_string(), w: "1e3".to_string(), h: "0.0004".to_string() };
    let t = sci.to_shape(1).unwrap();
    assert_eq!((t.w, t.h), (1_000_000, 1));
    let huge = ShapeEntry { id: 3, name: "c".to_string(), w: "3000000".to_string(), h: "inf".to_string() };
    let u = huge.to_shape(2).unwrap();
    assert_eq!((u.w, u.h), (2_147_483_649, 2_147_483_649));
}

#[test]
fn stat_cell_is_active_unless_placeholder() {
    let c = StatCell::new("板数", "—");
    assert!(!c.active);
    assert_eq!(c.label, "板数");
    assert_eq!(c.value, "—");
    assert!(StatCell::new("板数", "3").active);
    assert!(StatCell::new("板数", "——").active);
    assert!(StatCell::new("板数", "").active);
}
